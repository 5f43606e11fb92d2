//! Two-way binding between a number field on screen and the number it edits.
//!
//! One enum names every editable number, and both directions are written against it: one
//! says what a field should show and the other puts a typed value back. Both have to resolve
//! the same name to the same place, so they live side by side: a binding that read one number
//! and wrote another would look like a field that will not take an edit.

use vstd::prelude::*;
use vstd::arithmetic::div_mod::*;
use crate::field::{params_fit, Field};
use crate::graph::{lemma_placed, placed, placed_from, GraphNode, NodeId, NodeOp};
use crate::shader::{copy_row, ShaderLayer};
use crate::raster::UVec2;
use crate::single::{capped, held_between, Single};
use crate::values::Values;

verus! {

/// Which number a number field stands for.
///
/// Node-keyed variants carry a [`NodeId`] of the active field's graph. An id names its node
/// for the life of the document, so a binding stays pointed at what it was built for across
/// every edit that does not delete that node, and answers "not there" rather than guessing
/// when one does.
#[derive(Clone, Copy, Debug, PartialEq, Eq, Structural)]
pub enum NumberBinding {
    /// A field naming nothing.
    Unbound,
    /// The resolution shift.
    Shift,
    /// The low end of the range as it is stored.
    RangeLow,
    /// The high end of the range as it is stored.
    RangeHigh,
    /// The bearing the hillshade light comes from.
    LightAzimuth,
    /// The spacing between iso-lines.
    ContourInterval,
    /// One component of one parameter of a shader node: the node, the parameter's position in
    /// the node's own key order, and which component of it.
    ///
    /// The parameter is positional, and safe to be positional because the panel is rebuilt
    /// whenever the shader's parameters change: a binding left over from before answers "not
    /// there" rather than writing into whatever moved into that position.
    ShaderParam(NodeId, usize, usize),
    /// The width the new-terrain dialog is set to.
    DialogWidth,
    /// The height the new-terrain dialog is set to.
    DialogHeight,
    /// The seed the new-terrain dialog is set to.
    DialogSeed,
}

/// What the new-terrain dialog is currently set to, and whether it is showing.
///
/// Held apart from the document because it describes a terrain that does not exist yet: it
/// survives creating one, so a person who got the size wrong reopens the dialog on what they
/// last typed rather than on what they ended up with.
#[derive(Clone, Copy, Debug, PartialEq, Eq, Structural)]
pub struct NewDialog {
    /// Whether the dialog is showing.
    pub open: bool,
    /// Cells across.
    pub width: u32,
    /// Cells down.
    pub height: u32,
    /// The seed the preset would be built from.
    pub seed: u32,
    /// Which preset would be built, by its place in the list of them.
    pub preset: u32,
}

impl Default for NewDialog {
    fn default() -> (dialog: Self)
        ensures
            dialog == (NewDialog { open: false, width: 1024, height: 1024, seed: 1, preset: 0 }),
    {
        NewDialog { open: false, width: 1024, height: 1024, seed: 1, preset: 0 }
    }
}

impl NewDialog {
    /// Shows the dialog.
    pub fn show(&mut self)
        ensures
            *final(self) == (NewDialog { open: true, ..*old(self) }),
    {
        self.open = true;
    }

    /// Picks the preset at a place in the list of them.
    pub fn pick(&mut self, preset: u32)
        ensures
            *final(self) == (NewDialog { preset, ..*old(self) }),
    {
        self.preset = preset;
    }

    /// Presses the create button: the extent, the seed and the preset of the terrain to make,
    /// and the dialog closes; nothing while a job is running or the dialog is not showing.
    pub fn create(&mut self, busy: bool) -> (answer: Option<(UVec2, u32, u32)>)
        ensures
            if busy || !old(self).open {
                answer is None && *final(self) == *old(self)
            } else {
                answer == Some(
                    (
                        UVec2 { x: old(self).width, y: old(self).height },
                        old(self).seed,
                        old(self).preset,
                    ),
                ) && *final(self) == (NewDialog { open: false, ..*old(self) })
            },
    {
        if busy || !self.open {
            return None;
        }
        self.open = false;
        Some((UVec2 { x: self.width, y: self.height }, self.seed, self.preset))
    }

    /// Closes the dialog on what it was set to.
    pub fn cancel(&mut self)
        ensures
            *final(self) == (NewDialog { open: false, ..*old(self) }),
    {
        self.open = false;
    }
}

/// A number as a field shows it.
#[derive(Clone, Copy, Debug, PartialEq, Eq, Structural)]
pub enum Shown {
    /// One that is edited as a whole number.
    Whole(i32),
    /// Any other.
    Real(Single),
}

/// Where a typed number goes.
#[derive(Debug)]
pub enum Goes {
    /// Through an edit of a named property of the active field.
    Edit(&'static str),
    /// Into the dialog.
    Dialog,
    /// Into the active field, as one change that may be merged with others to the same slot.
    Document(Slot),
}

/// A property of the active field that is to be set through an edit.
#[derive(Clone, Copy, Debug)]
pub struct Setting {
    /// Which property.
    pub property: &'static str,
    /// What it is set to.
    pub value: Shown,
}

/// What changes a history merges into one.
#[derive(Debug)]
pub enum Slot {
    /// None: each stands alone.
    Once,
    /// Those to one control.
    Control {
        /// What the control edits.
        property: &'static str,
        /// The node it edits, where it edits one.
        node: Option<NodeId>,
        /// Which of the node's numbers.
        index: (usize, usize),
    },
}

/// The shader of a node, where it has one.
pub open spec fn shader_at(field: Field, id: NodeId) -> Option<ShaderLayer> {
    match placed(field.graph.nodes@, id.0 as int) {
        Some(at) => match field.graph.nodes@[at].op {
            NodeOp::Shader(shader) => Some(shader),
            NodeOp::FieldRef(_) => None,
        },
        None => None,
    }
}

/// Whether some values have a component of a parameter, by its position in key order.
pub open spec fn has_component(values: Values, param: int, component: int) -> bool {
    0 <= param < values.names().len() && 0 <= component < values.rows()[param].len()
}

/// The spacing of the whole numbers that a single-precision number tells apart from `value`
/// down to half of it: the least power of two that leaves no more than 24 digits.
pub open spec fn spacing(value: u32) -> int
    decreases value,
{
    if value < 0x100_0000 {
        1
    } else {
        2 * spacing(value / 2)
    }
}

/// The whole number that a single-precision number carries a whole number as: the nearest it
/// tells apart, the even one of two as near.
pub open spec fn carried(value: u32) -> int {
    let step = spacing(value);
    let count = value as int / step;
    let over = value as int % step;
    if 2 * over < step || (2 * over == step && count % 2 == 0) {
        count * step
    } else {
        (count + 1) * step
    }
}

/// A whole number as a field shows it: carried as a single-precision number, and held below
/// the largest a field of whole numbers shows.
pub open spec fn shown_whole(value: u32) -> i32 {
    capped(carried(value), i32::MAX as int) as i32
}

fn spacing_of(value: u32) -> (step: u64)
    ensures
        step == spacing(value),
        1 <= step,
        value as int / spacing(value) < 0x100_0000,
        step == 1 || step <= value,
    decreases value,
{
    if value < 0x100_0000 {
        1
    } else {
        let half: u64 = spacing_of(value / 2);
        proof {
            lemma_div_denominator(value as int, 2, half as int);
        }
        2 * half
    }
}

/// A whole number as a field shows it.
pub fn show_whole(value: u32) -> (shown: i32)
    ensures
        shown == shown_whole(value),
{
    let step: u64 = spacing_of(value);
    let count: u64 = value as u64 / step;
    let over: u64 = value as u64 % step;
    proof {
        lemma_fundamental_div_mod(value as int, step as int);
        assert(count * step <= value) by (nonlinear_arith)
            requires
                value == step * count + over,
                over >= 0,
        ;
        assert((count + 1) * step == count * step + step) by (nonlinear_arith);
    }
    let kept: u64 = if 2 * over < step || (2 * over == step && count % 2 == 0) {
        count * step
    } else {
        (count + 1) * step
    };
    if kept < i32::MAX as u64 {
        kept as i32
    } else {
        i32::MAX
    }
}

/// A whole number that a single-precision number tells from its neighbours is shown as it is.
proof fn lemma_small_is_shown(value: u32)
    requires
        value < 0x100_0000,
    ensures
        shown_whole(value) == value,
{
}

/// What a binding shows.
pub open spec fn shown_by(binding: NumberBinding, field: Option<Field>, dialog: NewDialog) -> Option<
    Shown,
> {
    match binding {
        NumberBinding::Unbound => None,
        NumberBinding::DialogWidth => Some(Shown::Whole(shown_whole(dialog.width))),
        NumberBinding::DialogHeight => Some(Shown::Whole(shown_whole(dialog.height))),
        NumberBinding::DialogSeed => Some(Shown::Whole(shown_whole(dialog.seed))),
        _ => match field {
            None => None,
            Some(field) => match binding {
                NumberBinding::Shift => Some(Shown::Whole(field.shift as i32)),
                NumberBinding::RangeLow => Some(Shown::Real(field.range.0)),
                NumberBinding::RangeHigh => Some(Shown::Real(field.range.1)),
                NumberBinding::LightAzimuth => Some(Shown::Real(field.light_azimuth)),
                NumberBinding::ContourInterval => Some(Shown::Real(field.contour_interval)),
                NumberBinding::ShaderParam(id, param, component) => match shader_at(field, id) {
                    Some(shader) => if has_component(
                        shader.params,
                        param as int,
                        component as int,
                    ) {
                        Some(Shown::Real(shader.params.rows()[param as int][component as int]))
                    } else {
                        None
                    },
                    None => None,
                },
                _ => None,
            },
        },
    }
}

/// The largest finite number.
pub const GREATEST: u32 = 0x7f7f_ffff;

/// The numbers a binding takes, where it does not take all. `least_interval` is the smallest
/// contour spacing.
pub open spec fn span_of(binding: NumberBinding, least_interval: Single) -> Option<
    (Single, Single),
> {
    match binding {
        NumberBinding::Shift => Some((Single(0), Single(0x4100_0000))),
        NumberBinding::LightAzimuth => Some((Single(0), Single(0x43b4_0000))),
        NumberBinding::ContourInterval => Some((least_interval, Single(GREATEST))),
        NumberBinding::DialogSeed => Some((Single(0), Single(0x4f80_0000))),
        NumberBinding::DialogWidth | NumberBinding::DialogHeight => Some(
            (Single(0x4180_0000), Single(0x4600_0000)),
        ),
        _ => None,
    }
}

/// A typed number as a binding takes it: held in the binding's span.
pub open spec fn taken_by(
    binding: NumberBinding,
    value: Single,
    least_interval: Single,
) -> Single {
    match span_of(binding, least_interval) {
        Some((low, high)) => value.held(low, high),
        None => value,
    }
}

/// A number as a whole one that fits below `most`: its integer part.
pub open spec fn whole_of(value: Single, most: int) -> u32 {
    held_between(value.whole_part(), 0, most) as u32
}

/// What a binding asks to have set through an edit, once it has taken a number.
pub open spec fn asked_by(binding: NumberBinding, taken: Single) -> Option<Setting> {
    match binding {
        NumberBinding::Shift => Some(
            Setting { property: "shift", value: Shown::Whole(whole_of(taken, u8::MAX as int) as i32) },
        ),
        NumberBinding::LightAzimuth => Some(
            Setting { property: "light_azimuth", value: Shown::Real(taken) },
        ),
        NumberBinding::ContourInterval => Some(
            Setting { property: "contour_interval", value: Shown::Real(taken) },
        ),
        _ => None,
    }
}

/// What a binding leaves the dialog set to, once it has taken a number.
pub open spec fn dialog_after(binding: NumberBinding, taken: Single, dialog: NewDialog) -> NewDialog {
    let whole = whole_of(taken, u32::MAX as int);
    match binding {
        NumberBinding::DialogWidth => NewDialog { width: whole, ..dialog },
        NumberBinding::DialogHeight => NewDialog { height: whole, ..dialog },
        NumberBinding::DialogSeed => NewDialog { seed: whole, ..dialog },
        _ => dialog,
    }
}

/// Whether a binding leaves a field like this, once it has taken a number.
pub open spec fn field_after(
    binding: NumberBinding,
    taken: Single,
    before: Field,
    after: Field,
) -> bool {
    match binding {
        NumberBinding::RangeLow => after == (Field { range: (taken, before.range.1), ..before }),
        NumberBinding::RangeHigh => after == (Field { range: (before.range.0, taken), ..before }),
        NumberBinding::ShaderParam(id, param, component) => written(
            before,
            after,
            id,
            param as int,
            component as int,
            taken,
        ),
        _ => after == before,
    }
}

impl NumberBinding {
    /// Whether the number is edited as a whole one, so that the field cannot offer a fraction
    /// the document has nowhere to put.
    pub open spec fn whole(self) -> bool {
        self == NumberBinding::Shift || self == NumberBinding::DialogWidth || self
            == NumberBinding::DialogHeight || self == NumberBinding::DialogSeed
    }

    /// Whether the number is edited as a whole one.
    pub fn is_integer(self) -> (answer: bool)
        ensures
            answer == self.whole(),
    {
        matches!(
            self,
            NumberBinding::Shift | NumberBinding::DialogWidth | NumberBinding::DialogHeight
            | NumberBinding::DialogSeed
        )
    }

    /// The numbers the binding takes, where it does not take all.
    pub fn range(self, least_interval: Single) -> (range: Option<(Single, Single)>)
        ensures
            range == span_of(self, least_interval),
    {
        match self {
            NumberBinding::Shift => Some((Single(0), Single(0x4100_0000))),
            NumberBinding::LightAzimuth => Some((Single(0), Single(0x43b4_0000))),
            NumberBinding::ContourInterval => Some((least_interval, Single(GREATEST))),
            NumberBinding::DialogSeed => Some((Single(0), Single(0x4f80_0000))),
            NumberBinding::DialogWidth | NumberBinding::DialogHeight => Some(
                (Single(0x4180_0000), Single(0x4600_0000)),
            ),
            _ => None,
        }
    }

    /// A typed number as the binding takes it.
    pub fn clamp(self, value: Single, least_interval: Single) -> (answer: Single)
        requires
            least_interval.at_most(Single(GREATEST)),
        ensures
            answer == taken_by(self, value, least_interval),
    {
        match self.range(least_interval) {
            Some((low, high)) => value.clamp(low, high),
            None => value,
        }
    }

    /// The node the binding edits, where it edits one.
    pub fn node(self) -> (id: Option<NodeId>)
        ensures
            match self {
                NumberBinding::ShaderParam(node, _, _) => id == Some(node),
                _ => id is None,
            },
    {
        match self {
            NumberBinding::ShaderParam(id, _, _) => Some(id),
            _ => None,
        }
    }

    /// Where a typed number goes.
    pub fn goes(self) -> (goes: Goes)
        ensures
            goes == (match self {
                NumberBinding::Shift => Goes::Edit("shift"),
                NumberBinding::LightAzimuth => Goes::Edit("light_azimuth"),
                NumberBinding::ContourInterval => Goes::Edit("contour_interval"),
                NumberBinding::DialogWidth
                | NumberBinding::DialogHeight
                | NumberBinding::DialogSeed => Goes::Dialog,
                NumberBinding::RangeLow => Goes::Document(
                    Slot::Control { property: "range.low", node: None, index: (0, 0) },
                ),
                NumberBinding::RangeHigh => Goes::Document(
                    Slot::Control { property: "range.high", node: None, index: (0, 0) },
                ),
                NumberBinding::ShaderParam(id, param, component) => Goes::Document(
                    Slot::Control {
                        property: "shader.param",
                        node: Some(id),
                        index: (param, component),
                    },
                ),
                NumberBinding::Unbound => Goes::Document(Slot::Once),
            }),
    {
        match self {
            NumberBinding::Shift => Goes::Edit("shift"),
            NumberBinding::LightAzimuth => Goes::Edit("light_azimuth"),
            NumberBinding::ContourInterval => Goes::Edit("contour_interval"),
            NumberBinding::DialogWidth
            | NumberBinding::DialogHeight
            | NumberBinding::DialogSeed => Goes::Dialog,
            NumberBinding::RangeLow => Goes::Document(
                Slot::Control { property: "range.low", node: None, index: (0, 0) },
            ),
            NumberBinding::RangeHigh => Goes::Document(
                Slot::Control { property: "range.high", node: None, index: (0, 0) },
            ),
            NumberBinding::ShaderParam(id, param, component) => Goes::Document(
                Slot::Control {
                    property: "shader.param",
                    node: Some(id),
                    index: (param, component),
                },
            ),
            NumberBinding::Unbound => Goes::Document(Slot::Once),
        }
    }

    /// What the field should be showing.
    ///
    /// `None` where the binding names something the document no longer has: a panel waiting to
    /// be rebuilt, or a node whose op has no such number.
    pub fn read(self, field: Option<&Field>, dialog: &NewDialog) -> (answer: Option<Shown>)
        requires
            field matches Some(field) ==> params_fit(field.graph.nodes@),
        ensures
            answer == shown_by(
                self,
                match field {
                    Some(field) => Some(*field),
                    None => None,
                },
                *dialog,
            ),
    {
        match self {
            NumberBinding::Unbound => {
                return None;
            },
            NumberBinding::DialogWidth => {
                return Some(Shown::Whole(show_whole(dialog.width)));
            },
            NumberBinding::DialogHeight => {
                return Some(Shown::Whole(show_whole(dialog.height)));
            },
            NumberBinding::DialogSeed => {
                return Some(Shown::Whole(show_whole(dialog.seed)));
            },
            _ => {},
        }
        let field: &Field = match field {
            Some(field) => field,
            None => {
                return None;
            },
        };
        match self {
            NumberBinding::Shift => Some(Shown::Whole(field.shift as i32)),
            NumberBinding::RangeLow => Some(Shown::Real(field.range.0)),
            NumberBinding::RangeHigh => Some(Shown::Real(field.range.1)),
            NumberBinding::LightAzimuth => Some(Shown::Real(field.light_azimuth)),
            NumberBinding::ContourInterval => Some(Shown::Real(field.contour_interval)),
            NumberBinding::ShaderParam(id, param, component) => {
                let node: &GraphNode = match field.graph.node(id) {
                    Some(node) => node,
                    None => {
                        return None;
                    },
                };
                proof {
                    lemma_placed(field.graph.nodes@, id.0 as int, 0);
                }
                match &node.op {
                    NodeOp::Shader(shader) => {
                        proof {
                            shader.params.lemma_wf();
                        }
                        match shader.params.value_at(param) {
                            Some(row) => if component < row.len() {
                                Some(Shown::Real(row[component]))
                            } else {
                                None
                            },
                            None => None,
                        }
                    },
                    NodeOp::FieldRef(_) => None,
                }
            },
            _ => None,
        }
    }

    /// Takes a typed number: holds it in the binding's span and puts it where the binding
    /// points. A number of the dialog or of the field is written at once; one that is a
    /// property of its own is handed back, to be set through an edit. Nothing where the
    /// binding names something that is not there.
    pub fn write(
        self,
        value: Single,
        least_interval: Single,
        field: Option<&mut Field>,
        dialog: &mut NewDialog,
    ) -> (asked: Option<Setting>)
        requires
            least_interval.at_most(Single(GREATEST)),
            field matches Some(field) ==> params_fit(field.graph.nodes@),
        ensures
            asked == asked_by(self, taken_by(self, value, least_interval)),
            *final(dialog) == dialog_after(
                self,
                taken_by(self, value, least_interval),
                *old(dialog),
            ),
            field matches Some(field) ==> params_fit(final(field).graph.nodes@) && field_after(
                self,
                taken_by(self, value, least_interval),
                *field,
                *final(field),
            ),
    {
        let taken: Single = self.clamp(value, least_interval);
        self.write_dialog(taken.truncate_u32(), dialog);
        if let Some(field) = field {
            self.write_document(taken, field);
        }
        match self {
            NumberBinding::Shift => {
                let whole: u32 = taken.truncate_u32();
                Some(
                    Setting {
                        property: "shift",
                        value: Shown::Whole(
                            if whole < u8::MAX as u32 {
                                whole as i32
                            } else {
                                u8::MAX as i32
                            },
                        ),
                    },
                )
            },
            NumberBinding::LightAzimuth => Some(
                Setting { property: "light_azimuth", value: Shown::Real(taken) },
            ),
            NumberBinding::ContourInterval => Some(
                Setting { property: "contour_interval", value: Shown::Real(taken) },
            ),
            _ => None,
        }
    }

    fn write_dialog(self, value: u32, dialog: &mut NewDialog)
        ensures
            *final(dialog) == (match self {
                NumberBinding::DialogWidth => NewDialog { width: value, ..*old(dialog) },
                NumberBinding::DialogHeight => NewDialog { height: value, ..*old(dialog) },
                NumberBinding::DialogSeed => NewDialog { seed: value, ..*old(dialog) },
                _ => *old(dialog),
            }),
    {
        match self {
            NumberBinding::DialogWidth => {
                dialog.width = value;
            },
            NumberBinding::DialogHeight => {
                dialog.height = value;
            },
            NumberBinding::DialogSeed => {
                dialog.seed = value;
            },
            _ => {},
        }
    }

    /// Puts a number into a shader's parameters and says whether there was such a component.
    pub fn write_shader(self, value: Single, shader: &mut ShaderLayer) -> (answer: bool)
        requires
            old(shader).params.wf(),
        ensures
            final(shader).params.wf(),
            match self {
                NumberBinding::ShaderParam(_, param, component) => {
                    let there = has_component(old(shader).params, param as int, component as int);
                    &&& answer == there
                    &&& there ==> {
                        let name = old(shader).params.names()[param as int];
                        &&& final(shader).params.names() == old(shader).params.names()
                        &&& final(shader).params@ == old(shader).params@.insert(
                            name,
                            old(shader).params@[name].update(component as int, value),
                        )
                        &&& *final(shader) == (ShaderLayer {
                            params: final(shader).params,
                            ..*old(shader)
                        })
                    }
                    &&& !there ==> *final(shader) == *old(shader)
                },
                _ => !answer && *final(shader) == *old(shader),
            },
    {
        match self {
            NumberBinding::ShaderParam(_, param, component) => {
                proof {
                    shader.params.lemma_wf();
                }
                let name: String = match shader.params.name_at(param) {
                    Some(name) => String::from_str(name),
                    None => {
                        return false;
                    },
                };
                let mut row: Vec<Single> = match shader.params.value_at(param) {
                    Some(row) => copy_row(row),
                    None => {
                        return false;
                    },
                };
                if component >= row.len() {
                    return false;
                }
                proof {
                    shader.params.lemma_at(param as int);
                }
                row.set(component, value);
                shader.params.insert(name, row);
                true
            },
            _ => false,
        }
    }

    /// Puts a number into a field. Nothing where the binding is not of the field's range or of
    /// a shader, or names a component that is not there.
    pub fn write_document(self, value: Single, field: &mut Field)
        requires
            params_fit(old(field).graph.nodes@),
        ensures
            params_fit(final(field).graph.nodes@),
            field_after(self, value, *old(field), *final(field)),
    {
        match self {
            NumberBinding::RangeLow => {
                field.range.0 = value;
            },
            NumberBinding::RangeHigh => {
                field.range.1 = value;
            },
            NumberBinding::ShaderParam(id, _, _) => {
                let ghost nodes = field.graph.nodes@;
                proof {
                    lemma_placed(nodes, id.0 as int, 0);
                }
                if let Some(node) = field.graph.node_mut(id) {
                    match &mut node.op {
                        NodeOp::Shader(shader) => {
                            self.write_shader(value, shader);
                        },
                        NodeOp::FieldRef(_) => {},
                    }
                }
                proof {
                    let at = placed(nodes, id.0 as int);
                    if at is Some {
                        assert(field.graph.nodes@ =~= nodes.update(
                            at->0,
                            field.graph.nodes@[at->0],
                        ));
                        assert(nodes.update(at->0, nodes[at->0]) =~= nodes);
                    }
                }
            },
            _ => {},
        }
    }
}

/// Whether a field has had one component of one parameter of one shader node written, and
/// nothing else changed. Where there is no such component nothing has.
pub open spec fn written(
    before: Field,
    after: Field,
    id: NodeId,
    param: int,
    component: int,
    value: Single,
) -> bool {
    &&& after == (Field { graph: after.graph, ..before })
    &&& after.graph.output == before.graph.output
    &&& after.graph.next_id == before.graph.next_id
    &&& match shader_at(before, id) {
        Some(shader) if has_component(shader.params, param, component) => {
            let at = placed(before.graph.nodes@, id.0 as int)->0;
            let name = shader.params.names()[param];
            &&& after.graph.nodes@ == before.graph.nodes@.update(at, after.graph.nodes@[at])
            &&& after.graph.nodes@[at] == (GraphNode {
                op: after.graph.nodes@[at].op,
                ..before.graph.nodes@[at]
            })
            &&& match after.graph.nodes@[at].op {
                NodeOp::Shader(new) => {
                    &&& new == (ShaderLayer { params: new.params, ..shader })
                    &&& new.params.wf()
                    &&& new.params.names() == shader.params.names()
                    &&& new.params@ == shader.params@.insert(
                        name,
                        shader.params@[name].update(component, value),
                    )
                },
                NodeOp::FieldRef(_) => false,
            }
        },
        _ => after.graph.nodes@ == before.graph.nodes@,
    }
}

/// A number written through a binding, where the binding showed one, is what it then shows,
/// held in the binding's span: as it is, or its integer part, as a field shows one, where the
/// binding is of whole numbers. A property of its own is shown as what the edit was asked to set.
pub proof fn law_a_number_written_is_the_number_shown(
    binding: NumberBinding,
    value: Single,
    least_interval: Single,
    before: Field,
    after: Field,
    dialog: NewDialog,
)
    requires
        params_fit(before.graph.nodes@),
        field_after(binding, taken_by(binding, value, least_interval), before, after),
        shown_by(binding, Some(before), dialog) is Some,
    ensures
        ({
            let taken = taken_by(binding, value, least_interval);
            let shown = if binding.whole() {
                Shown::Whole(
                    shown_whole(
                        whole_of(
                            taken,
                            if binding == NumberBinding::Shift {
                                u8::MAX as int
                            } else {
                                u32::MAX as int
                            },
                        ),
                    ),
                )
            } else {
                Shown::Real(taken)
            };
            match asked_by(binding, taken) {
                Some(setting) => setting.value == shown,
                None => shown_by(binding, Some(after), dialog_after(binding, taken, dialog))
                    == Some(shown),
            }
        }),
{
    if binding == NumberBinding::Shift {
        lemma_small_is_shown(whole_of(taken_by(binding, value, least_interval), u8::MAX as int));
    }
    if let NumberBinding::ShaderParam(id, param, component) = binding {
        lemma_component_written(
            before,
            after,
            id,
            param,
            component,
            taken_by(binding, value, least_interval),
            dialog,
        );
    }
}

/// A component of a parameter that was written is shown as it was written.
proof fn lemma_component_written(
    before: Field,
    after: Field,
    id: NodeId,
    param: usize,
    component: usize,
    value: Single,
    dialog: NewDialog,
)
    requires
        params_fit(before.graph.nodes@),
        written(before, after, id, param as int, component as int, value),
        shown_by(
            NumberBinding::ShaderParam(id, param, component),
            Some(before),
            dialog,
        ) is Some,
    ensures
        shown_by(NumberBinding::ShaderParam(id, param, component), Some(after), dialog) == Some(
            Shown::Real(value),
        ),
{
    let nodes = before.graph.nodes@;
    let at = placed(nodes, id.0 as int)->0;
    lemma_placed(nodes, id.0 as int, 0);
    lemma_placed(after.graph.nodes@, id.0 as int, 0);
    lemma_placed_updated(nodes, after.graph.nodes@[at], id.0 as int, at, 0);
    let shader = shader_at(before, id)->0;
    let new = shader_at(after, id)->0;
    shader.params.lemma_wf();
    shader.params.lemma_at(param as int);
    new.params.lemma_wf();
    new.params.lemma_at(param as int);
}

/// A node replaced by one of the same id stands where it stood.
proof fn lemma_placed_updated(
    nodes: Seq<GraphNode>,
    node: GraphNode,
    id: int,
    at: int,
    from: int,
)
    requires
        0 <= from,
        0 <= at < nodes.len(),
        node.id == nodes[at].id,
    ensures
        placed_from(nodes.update(at, node), id, from) == placed_from(nodes, id, from),
    decreases nodes.len() - from,
{
    if from < nodes.len() {
        lemma_placed_updated(nodes, node, id, at, from + 1);
    }
}

} // verus!
