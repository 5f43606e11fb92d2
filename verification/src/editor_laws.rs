//! What holds of every number, button and control of the editor.

use vstd::arithmetic::power2::{lemma2_to64, lemma_pow2_adds, lemma_pow2_pos, pow2};
use vstd::prelude::*;
use crate::bind::{
    asked_by, carried, dialog_after, field_after, has_component, shader_at, shown_by, shown_whole,
    spacing, span_of, taken_by, written, NewDialog, NumberBinding, Shown,
};
use crate::brush::Brush;
use crate::edit::{asked, held_shift, offered, Control, Edit, Stack};
use crate::field::Field;
use crate::form::{
    amount_at, brushed, is_default_op, output_names, real_span, taken, Amount, BrushNumber, LayerOp,
    OpNumber,
};
use crate::graph::{placed, NodeId, NodeOp};
use crate::layer::{texts_view, Layer, DEFAULT_LIGHT_AZIMUTH, UNIT};
use crate::log::{hidden, rows_of, LogView};
use crate::noise::NOISE_OCTAVES;
use crate::panel::{
    component_caption, component_rows, group_after, panel_rows, shape_of, PanelRowView,
};
use crate::params::ParamField;
use crate::recipe::{carries, RecipeMeta, MAX_RECIPE_BYTES, RECIPE_VERSION};
use crate::single::{held_between, Single};
use crate::single_laws::kept_between;
use crate::terrain::TerrainSpec;
use crate::text::decimal;
use crate::toolbar::{described, started, Action, Button, Described, Standing};
use crate::water::DEFAULT_LAKE_MIN_CELLS;

verus! {

/// Whether a pattern stands for a whole number.
pub open spec fn stands_for(value: Single, whole: int) -> bool {
    !value.nan() && value.units() == whole * pow2(149)
}

proof fn lemma_stands_for(exponent: u32, fraction: u32, whole: int)
    requires
        127 <= exponent <= 190,
        fraction < 0x80_0000,
        whole * 0x80_0000 == (0x80_0000 + fraction) * pow2((exponent - 127) as nat),
    ensures
        stands_for(Single((exponent * 0x80_0000 + fraction) as u32), whole),
{
    let value = Single((exponent * 0x80_0000 + fraction) as u32);
    let over = pow2((exponent - 127) as nat) as int;
    let low = pow2(126) as int;
    lemma2_to64();
    lemma_pow2_adds((exponent - 127) as nat, 126);
    lemma_pow2_adds(23, 126);
    assert(value.magnitude() == exponent * 0x80_0000 + fraction);
    assert(value.magnitude() / 0x80_0000 == exponent);
    assert(value.magnitude() % 0x80_0000 == fraction);
    assert((0x80_0000 + fraction) * (over * low) == whole * (0x80_0000 * low)) by (nonlinear_arith)
        requires
            whole * 0x80_0000 == (0x80_0000 + fraction) * over,
    ;
}

/// The spans of the numbers of a form: the shift goes from zero to eight, the bearing of the
/// light from zero to three hundred and sixty degrees, the extents of a new terrain from
/// sixteen to eight thousand one hundred and ninety two cells and its seed from zero to two
/// to the power of thirty two; a contour interval is no less than the least there is.
pub proof fn law_each_number_has_its_own_span(least: Single)
    ensures
        span_of(NumberBinding::Shift, least) matches Some((low, high)) && stands_for(low, 0)
            && stands_for(high, 8),
        span_of(NumberBinding::LightAzimuth, least) matches Some((low, high)) && stands_for(low, 0)
            && stands_for(high, 360),
        span_of(NumberBinding::DialogWidth, least) matches Some((low, high)) && stands_for(low, 16)
            && stands_for(high, 8192),
        span_of(NumberBinding::DialogHeight, least) == span_of(NumberBinding::DialogWidth, least),
        span_of(NumberBinding::DialogSeed, least) matches Some((low, high)) && stands_for(low, 0)
            && stands_for(high, 0x1_0000_0000),
        span_of(NumberBinding::ContourInterval, least) matches Some((low, high)) && low == least
            && high.finite() && forall|other: Single|
            other.finite() ==> other.rank() <= high.rank(),
        span_of(NumberBinding::RangeLow, least) is None,
        span_of(NumberBinding::RangeHigh, least) is None,
{
    lemma2_to64();
    lemma_stands_for(130, 0, 8);
    lemma_stands_for(135, 0x34_0000, 360);
    lemma_stands_for(131, 0, 16);
    lemma_stands_for(140, 0, 8192);
    lemma_stands_for(159, 0, 0x1_0000_0000);
    assert(stands_for(Single(0), 0)) by {
        lemma_pow2_pos(149);
        assert(0 * pow2(149) == 0);
    }
}

/// A typed number is taken as it is where it lies in the span of its field, and as the nearer
/// end otherwise.
pub proof fn law_a_typed_number_is_held_in_its_span(
    binding: NumberBinding,
    value: Single,
    least: Single,
)
    requires
        span_of(binding, least) matches Some((low, high)) ==> !low.nan() && !high.nan()
            && low.rank() <= high.rank(),
    ensures
        match span_of(binding, least) {
            Some((low, high)) => kept_between(value, low, high, taken_by(binding, value, least)),
            None => taken_by(binding, value, least) == value,
        },
{
}

/// The spacing of the whole numbers that are told apart leaves a number no more than
/// twenty-four binary digits, and is the least power of two that does.
pub proof fn law_numbers_are_told_apart_by_their_spacing(value: u32)
    ensures
        spacing(value) >= 1,
        value as int / spacing(value) < 0x100_0000,
        value < 0x100_0000 ==> spacing(value) == 1,
        value >= 0x100_0000 ==> spacing(value) % 2 == 0 && value as int / (spacing(value) / 2)
            >= 0x100_0000,
        exists|power: nat| spacing(value) == #[trigger] pow2(power),
    decreases value,
{
    if value < 0x100_0000 {
        lemma2_to64();
        assert(spacing(value) == pow2(0));
    } else {
        let half = value / 2;
        law_numbers_are_told_apart_by_their_spacing(half);
        let step = spacing(half);
        let power = choose|power: nat| step == #[trigger] pow2(power);
        vstd::arithmetic::power2::lemma_pow2_unfold(power + 1);
        assert(spacing(value) == pow2(power + 1));
        let v = value as int;
        assert(half as int == v / 2);
        vstd::arithmetic::div_mod::lemma_div_denominator(v, 2, step);
        assert(v / (2 * step) == (v / 2) / step);
        assert((2 * step) / 2 == step);
        if half >= 0x100_0000 {
            let q = step / 2;
            assert(step == 2 * q);
            vstd::arithmetic::div_mod::lemma_div_denominator(v, 2, q);
            assert(v / (2 * q) == (v / 2) / q);
            assert((half as int) / (step / 2) >= 0x100_0000);
            assert(v / step >= 0x100_0000);
        } else {
            assert(step == 1);
            assert(v / step >= 0x100_0000) by {
                vstd::arithmetic::div_mod::lemma_div_basics(v);
            }
        }
        assert(spacing(value) / 2 == step);
    }
}

/// A whole number of no more than twenty-four binary digits is shown as itself; a larger one
/// as a multiple of its spacing that is no further than half of that from it, the even of two
/// as near.
pub proof fn law_a_whole_number_is_carried_to_the_nearest(value: u32)
    ensures
        value <= 0x100_0000 ==> shown_whole(value) == value,
        carried(value) % spacing(value) == 0,
        -spacing(value) <= 2 * (carried(value) - value) <= spacing(value),
        2 * (carried(value) - value) == spacing(value) || 2 * (carried(value) - value)
            == -spacing(value) ==> (carried(value) / spacing(value)) % 2 == 0,
        carried(value) <= i32::MAX ==> shown_whole(value) == carried(value),
        carried(value) > i32::MAX ==> shown_whole(value) == i32::MAX,
{
    law_numbers_are_told_apart_by_their_spacing(value);
    let step = spacing(value);
    let count = value as int / step;
    let over = value as int % step;
    vstd::arithmetic::div_mod::lemma_fundamental_div_mod(value as int, step);
    assert(step * count == count * step) by (nonlinear_arith);
    assert((count + 1) * step == count * step + step) by (nonlinear_arith);
    vstd::arithmetic::div_mod::lemma_mod_multiples_basic(count, step);
    vstd::arithmetic::div_mod::lemma_mod_multiples_basic(count + 1, step);
    vstd::arithmetic::div_mod::lemma_div_multiples_vanish(count, step);
    vstd::arithmetic::div_mod::lemma_div_multiples_vanish(count + 1, step);
    assert((count * step) / step == count) by {
        assert(count * step == step * count) by (nonlinear_arith);
    }
    assert(((count + 1) * step) / step == count + 1) by {
        assert((count + 1) * step == step * (count + 1)) by (nonlinear_arith);
    }
    assert(0 <= count * step) by (nonlinear_arith)
        requires
            count >= 0,
            step >= 1,
    ;
    if value == 0x100_0000 {
        assert(value / 2 == 0x80_0000);
        assert(spacing(0x80_0000) == 1);
        assert(step == 2);
    }
}

/// Each number of the panel shows the property it is for.
pub proof fn law_each_number_shows_its_own_property(field: Field, dialog: NewDialog)
    ensures
        shown_by(NumberBinding::Shift, Some(field), dialog) == Some(
            Shown::Whole(field.shift as i32),
        ),
        shown_by(NumberBinding::RangeLow, Some(field), dialog) == Some(Shown::Real(field.range.0)),
        shown_by(NumberBinding::RangeHigh, Some(field), dialog) == Some(
            Shown::Real(field.range.1),
        ),
        shown_by(NumberBinding::LightAzimuth, Some(field), dialog) == Some(
            Shown::Real(field.light_azimuth),
        ),
        shown_by(NumberBinding::ContourInterval, Some(field), dialog) == Some(
            Shown::Real(field.contour_interval),
        ),
        dialog.width <= 0x100_0000 ==> shown_by(NumberBinding::DialogWidth, None, dialog) == Some(
            Shown::Whole(dialog.width as i32),
        ),
        dialog.height <= 0x100_0000 ==> shown_by(NumberBinding::DialogHeight, None, dialog)
            == Some(Shown::Whole(dialog.height as i32)),
        dialog.seed <= 0x100_0000 ==> shown_by(NumberBinding::DialogSeed, None, dialog) == Some(
            Shown::Whole(dialog.seed as i32),
        ),
        shown_by(NumberBinding::Unbound, Some(field), dialog) is None,
        shown_by(NumberBinding::RangeLow, None, dialog) is None,
{
    law_a_whole_number_is_carried_to_the_nearest(dialog.width);
    law_a_whole_number_is_carried_to_the_nearest(dialog.height);
    law_a_whole_number_is_carried_to_the_nearest(dialog.seed);
}

/// A number written into the dialog goes to the setting it is for, cut off to a whole one,
/// and to no other.
pub proof fn law_a_number_of_the_dialog_is_written_alone(taken: Single, dialog: NewDialog)
    requires
        taken.whole_part() <= u32::MAX,
        taken.whole_part() >= 0,
    ensures
        ({
            let wide = dialog_after(NumberBinding::DialogWidth, taken, dialog);
            let high = dialog_after(NumberBinding::DialogHeight, taken, dialog);
            let seeded = dialog_after(NumberBinding::DialogSeed, taken, dialog);
            &&& wide.width == taken.whole_part() && wide.height == dialog.height && wide.seed
                == dialog.seed
            &&& high.height == taken.whole_part() && high.width == dialog.width && high.seed
                == dialog.seed
            &&& seeded.seed == taken.whole_part() && seeded.width == dialog.width && seeded.height
                == dialog.height
            &&& wide.preset == dialog.preset && high.preset == dialog.preset && seeded.preset
                == dialog.preset
            &&& wide.open == dialog.open && high.open == dialog.open && seeded.open == dialog.open
        }),
{
}

/// A number written into a field's range goes to the end it is for and leaves the other end
/// and the rest of the field alone.
pub proof fn law_an_end_of_the_range_is_written_alone(
    taken: Single,
    before: Field,
    low: Field,
    high: Field,
)
    requires
        field_after(NumberBinding::RangeLow, taken, before, low),
        field_after(NumberBinding::RangeHigh, taken, before, high),
    ensures
        low.range.0 == taken && low.range.1 == before.range.1,
        high.range.1 == taken && high.range.0 == before.range.0,
        low.graph == before.graph && high.graph == before.graph,
        low.shift == before.shift && high.shift == before.shift,
        low.id == before.id && high.id == before.id,
{
}

/// A component of a parameter of a node is written where it is, by the parameter's place in
/// the order of the names: every other component and every other parameter of that node stays
/// as it was, and so does every other node.
pub proof fn law_a_component_is_written_alone(
    before: Field,
    after: Field,
    id: NodeId,
    param: int,
    component: int,
    value: Single,
    at: int,
    name: Seq<char>,
    other: int,
)
    requires
        written(before, after, id, param, component, value),
        shader_at(before, id) matches Some(shader) && shader.params.wf() && has_component(
            shader.params,
            param,
            component,
        ),
        placed(before.graph.nodes@, id.0 as int) == Some(at),
        0 <= at < before.graph.nodes@.len(),
    ensures
        ({
            let old = (shader_at(before, id)->0).params;
            let written_name = old.names()[param];
            &&& after.graph.nodes@[at].op matches NodeOp::Shader(new) && {
                &&& new.params@[written_name][component] == value
                &&& other != component && 0 <= other < old@[written_name].len()
                    ==> new.params@[written_name][other] == old@[written_name][other]
                &&& name != written_name ==> (new.params@.dom().contains(name)
                    == old@.dom().contains(name)) && new.params@[name] == old@[name]
            }
            &&& forall|i: int|
                0 <= i < before.graph.nodes@.len() && i != at ==> #[trigger] after.graph.nodes@[i]
                    == before.graph.nodes@[i]
            &&& after.graph.nodes@.len() == before.graph.nodes@.len()
        }),
{
    let old = (shader_at(before, id)->0).params;
    old.lemma_at(param);
}

/// A component of a parameter is shown by the parameter's place in the order of the names.
pub proof fn law_a_component_is_shown_by_its_place(
    field: Field,
    dialog: NewDialog,
    id: NodeId,
    param: usize,
    component: usize,
)
    requires
        shader_at(field, id) matches Some(shader) && shader.params.wf() && param
            < shader.params.names().len() && component
            < shader.params@[shader.params.names()[param as int]].len(),
    ensures
        ({
            let values = (shader_at(field, id)->0).params;
            shown_by(NumberBinding::ShaderParam(id, param, component), Some(field), dialog) == Some(
                Shown::Real(values@[values.names()[param as int]][component as int]),
            )
        }),
{
    let values = (shader_at(field, id)->0).params;
    values.lemma_at(param as int);
}

/// A number that is set through an edit names its own property and hands over what it took.
pub proof fn law_a_setting_names_its_own_property(taken: Single)
    requires
        0 <= taken.whole_part() <= u8::MAX,
    ensures
        asked_by(NumberBinding::Shift, taken) matches Some(setting) && setting.property@
            == "shift"@ && setting.value == Shown::Whole(taken.whole_part() as i32),
        asked_by(NumberBinding::LightAzimuth, taken) matches Some(setting) && setting.property@
            == "light_azimuth"@ && setting.value == Shown::Real(taken),
        asked_by(NumberBinding::ContourInterval, taken) matches Some(setting) && setting.property@
            == "contour_interval"@ && setting.value == Shown::Real(taken),
        asked_by(NumberBinding::RangeLow, taken) is None,
        asked_by(NumberBinding::DialogWidth, taken) is None,
{
}

/// A component of a vector is called after its parameter and the letter of its place; that of
/// anything else after its parameter alone.
pub proof fn law_a_component_is_called_by_its_letter(label: Seq<char>, count: int, component: int)
    requires
        1 <= count <= 4,
        0 <= component < count,
    ensures
        ({
            let caption = component_caption(label, count, component);
            &&& count == 1 ==> caption == label
            &&& count > 1 ==> {
                &&& caption.len() == label.len() + 2
                &&& caption.take(label.len() as int) == label
                &&& caption[label.len() as int] == ' '
                &&& caption[label.len() as int + 1] == seq!['x', 'y', 'z', 'w'][component]
            }
        }),
{
    reveal_strlit("x");
    reveal_strlit("y");
    reveal_strlit("z");
    reveal_strlit("w");
    reveal_strlit(" ");
    let caption = component_caption(label, count, component);
    if count > 1 {
        assert(caption.take(label.len() as int) =~= label);
    }
}

proof fn lemma_component_rows(field: ParamField<Single>, param: int, upto: int)
    requires
        0 <= upto,
    ensures
        component_rows(field, param, upto).len() == upto,
        forall|k: int|
            0 <= k < upto ==> #[trigger] component_rows(field, param, upto)[k] == (
            PanelRowView::Number {
                caption: component_caption(field.label@, field.ty.count() as int, k),
                param,
                component: k,
            }),
    decreases upto,
{
    if upto > 0 {
        lemma_component_rows(field, param, upto - 1);
    }
}

/// One more parameter adds its rows after those before it: none where it is hidden, otherwise
/// the caption of its group where a group begins with it, and, where it has a value, a number
/// for each of its components in order, by the parameter's place among the names.
pub proof fn law_a_parameter_adds_its_rows(
    fields: Seq<ParamField<Single>>,
    field: ParamField<Single>,
    names: Seq<Seq<char>>,
    param: int,
    k: int,
)
    requires
        names.no_duplicates(),
        0 <= param < names.len(),
        names[param] == field.name@,
        0 <= k < field.ty.count(),
    ensures
        ({
            let before = panel_rows(fields, names);
            let after = panel_rows(fields.push(field), names);
            let count = field.ty.count();
            let begins = field.group@.len() > 0 && field.group@ != group_after(fields);
            let headed = before.len() + if begins {
                1int
            } else {
                0int
            };
            &&& field.widget is Hidden ==> after == before
            &&& !(field.widget is Hidden) ==> {
                &&& after.len() == headed + count
                &&& after.take(before.len() as int) == before
                &&& begins ==> after[before.len() as int] == PanelRowView::Group(field.group@)
                &&& after[headed + k] == (PanelRowView::Number {
                    caption: component_caption(field.label@, count, k),
                    param,
                    component: k,
                })
            }
        }),
{
    let all = fields.push(field);
    assert(all.drop_last() =~= fields);
    assert(all.last() == field);
    assert(names.contains(field.name@));
    let at = names.index_of(field.name@);
    assert(at == param);
    lemma_component_rows(field, param, field.ty.count());
    let before = panel_rows(fields, names);
    let after = panel_rows(all, names);
    if !(field.widget is Hidden) {
        assert(after.take(before.len() as int) =~= before);
    }
}

/// The group in force is that of the last parameter that is not hidden.
pub proof fn law_a_group_lasts_until_the_next_shown_parameter(
    fields: Seq<ParamField<Single>>,
    field: ParamField<Single>,
)
    ensures
        field.widget is Hidden ==> group_after(fields.push(field)) == group_after(fields),
        !(field.widget is Hidden) ==> group_after(fields.push(field)) == field.group@,
        group_after(Seq::<ParamField<Single>>::empty()).len() == 0,
{
    let all = fields.push(field);
    assert(all.drop_last() =~= fields);
}

/// Each number of an op's form is the op's own.
pub proof fn law_each_number_of_an_op_is_its_own(op: LayerOp)
    ensures
        op matches LayerOp::Constant(value) ==> amount_at(op, OpNumber::Constant) == Some(
            Amount::Real(value),
        ),
        op matches LayerOp::Noise(spec) ==> {
            &&& amount_at(op, OpNumber::NoiseSeed) == Some(Amount::Whole(spec.seed))
            &&& amount_at(op, OpNumber::NoiseScale) == Some(Amount::Real(spec.scale))
            &&& amount_at(op, OpNumber::NoiseOctaves) == Some(Amount::Whole(spec.octaves))
            &&& amount_at(op, OpNumber::NoiseStrike) == Some(
                Amount::Real(spec.transform.strike_degrees),
            )
            &&& amount_at(op, OpNumber::NoiseAspect) == Some(Amount::Real(spec.transform.aspect))
            &&& spec.warp matches Some(warp) ==> {
                &&& amount_at(op, OpNumber::WarpAmplitude) == Some(Amount::Real(warp.amplitude))
                &&& amount_at(op, OpNumber::WarpScale) == Some(Amount::Real(warp.scale))
                &&& amount_at(op, OpNumber::WarpOctaves) == Some(Amount::Whole(warp.octaves))
            }
            &&& spec.warp is None ==> amount_at(op, OpNumber::WarpScale) is None
        },
        op matches LayerOp::Slope { of, sample_tiles, mode } ==> amount_at(op, OpNumber::SlopeTiles)
            == Some(Amount::Real(sample_tiles)),
        op matches LayerOp::Regions { spec, output } ==> {
            &&& amount_at(op, OpNumber::RegionSeed) == Some(Amount::Whole(spec.seed))
            &&& amount_at(op, OpNumber::RegionCells) == Some(Amount::Whole(spec.cell_tiles))
            &&& amount_at(op, OpNumber::RegionBlend) == Some(Amount::Whole(spec.blend_tiles))
        },
{
}

/// The numbers of a table of regions are found by the region and, for its values, by the
/// column.
pub proof fn law_a_region_has_its_own_numbers(op: LayerOp, at: usize, column: usize)
    requires
        op is Regions,
    ensures
        op matches LayerOp::Regions { spec, output } ==> {
            &&& at < spec.regions@.len() ==> amount_at(op, OpNumber::RegionWeight(at)) == Some(
                Amount::Real(spec.regions@[at as int].weight),
            )
            &&& at < spec.regions@.len() && column < spec.regions@[at as int].values@.len()
                ==> amount_at(op, OpNumber::RegionValue(at, column)) == Some(
                Amount::Real(spec.regions@[at as int].values@[column as int]),
            )
            &&& at >= spec.regions@.len() ==> amount_at(op, OpNumber::RegionWeight(at)) is None
                && amount_at(op, OpNumber::RegionValue(at, column)) is None
        },
{
}

/// A whole number of a form is taken as the nearest in its range: one to ten octaves of noise
/// and one to six of a warp, eight to four thousand and ninety six tiles between the cells of
/// a lattice, at most a thousand and twenty four tiles of blend, and any seed.
pub proof fn law_a_whole_number_is_held_in_its_range(value: u32)
    ensures
        taken(OpNumber::NoiseOctaves, Amount::Whole(value)) == Amount::Whole(
            held_between(value as int, 1, 10) as u32,
        ),
        taken(OpNumber::WarpOctaves, Amount::Whole(value)) == Amount::Whole(
            held_between(value as int, 1, 6) as u32,
        ),
        taken(OpNumber::RegionCells, Amount::Whole(value)) == Amount::Whole(
            held_between(value as int, 8, 4096) as u32,
        ),
        taken(OpNumber::RegionBlend, Amount::Whole(value)) == Amount::Whole(
            held_between(value as int, 0, 1024) as u32,
        ),
        taken(OpNumber::NoiseSeed, Amount::Whole(value)) == Amount::Whole(value),
        taken(OpNumber::RegionSeed, Amount::Whole(value)) == Amount::Whole(value),
{
}

/// Any other number of a form is taken as the nearest in its range, where it has one: a scale
/// from zero to one, a bearing within a hundred and eighty degrees of none, an elongation from
/// one to thirty two, a spacing of up to sixty four tiles.
pub proof fn law_a_real_number_is_held_in_its_range(number: OpNumber, value: Single)
    ensures
        taken(number, Amount::Real(value)) matches Amount::Real(kept) && match real_span(number) {
            Some((low, high)) => kept_between(value, low, high, kept),
            None => kept == value,
        },
        real_span(OpNumber::NoiseScale) matches Some((low, high)) && stands_for(low, 0)
            && stands_for(high, 1),
        real_span(OpNumber::NoiseStrike) matches Some((low, high)) && stands_for(low, -180)
            && stands_for(high, 180),
        real_span(OpNumber::NoiseAspect) matches Some((low, high)) && stands_for(low, 1)
            && stands_for(high, 32),
        real_span(OpNumber::SlopeTiles) matches Some((low, high)) && 2 * low.units() == pow2(149)
            && stands_for(high, 64),
        real_span(OpNumber::Constant) is None,
        real_span(OpNumber::WarpAmplitude) is None,
        real_span(OpNumber::WarpScale) is None,
{
    lemma2_to64();
    lemma_stands_for(127, 0, 1);
    lemma_stands_for(134, 0x34_0000, 180);
    lemma_stands_for(132, 0, 32);
    lemma_stands_for(133, 0, 64);
    lemma_pow2_pos(149);
    assert(0 * pow2(149) == 0);
    let unit = pow2(149) as int;
    let down = Single(0xc334_0000);
    let up = Single(0x4334_0000);
    assert(down.magnitude() == up.magnitude());
    assert((-180) * unit == -(180 * unit)) by (nonlinear_arith);
    let half = Single(0x3f00_0000);
    assert(half.magnitude() / 0x80_0000 == 126 && half.magnitude() % 0x80_0000 == 0);
    lemma_pow2_adds(23, 125);
    vstd::arithmetic::power2::lemma_pow2_unfold(149);
    assert(half.units() == 0x80_0000 * pow2(125));
}

/// A number of the brush is written alone: the radius held between none and five hundred and
/// twelve cells, the falloff between none and all, the strength and the value as they are.
pub proof fn law_a_number_of_the_brush_is_written_alone(brush: Brush, value: Single)
    ensures
        ({
            let wide = brushed(brush, BrushNumber::Radius, value);
            let soft = brushed(brush, BrushNumber::Falloff, value);
            let hard = brushed(brush, BrushNumber::Strength, value);
            let aimed = brushed(brush, BrushNumber::Value, value);
            &&& exists|most: Single| #[trigger]
                stands_for(most, 512) && kept_between(value, Single(0), most, wide.radius_cells)
            &&& wide.falloff == brush.falloff && wide.strength == brush.strength && wide.value
                == brush.value && wide.mode == brush.mode
            &&& exists|most: Single| #[trigger]
                stands_for(most, 1) && kept_between(value, Single(0), most, soft.falloff)
            &&& soft.radius_cells == brush.radius_cells && soft.strength == brush.strength
                && soft.value == brush.value && soft.mode == brush.mode
            &&& hard.strength == value && hard.radius_cells == brush.radius_cells && hard.falloff
                == brush.falloff && hard.value == brush.value && hard.mode == brush.mode
            &&& aimed.value == value && aimed.radius_cells == brush.radius_cells && aimed.falloff
                == brush.falloff && aimed.strength == brush.strength && aimed.mode == brush.mode
        }),
{
    lemma2_to64();
    lemma_stands_for(136, 0, 512);
    lemma_stands_for(127, 0, 1);
    assert(stands_for(Single(0x4400_0000), 512));
    assert(stands_for(Single(0x3f80_0000), 1));
}

/// The op that is added is of the kind asked for, noise for a kind that is none.
pub proof fn law_an_op_is_of_the_kind_asked_for(
    op: LayerOp,
    kind: Seq<char>,
    names: Seq<Seq<char>>,
)
    requires
        is_default_op(op, kind, names),
    ensures
        kind == "constant"@ ==> op is Constant,
        kind == "fieldref"@ ==> op is FieldRef,
        kind == "slope"@ ==> op is Slope,
        kind == "paint"@ ==> op is Paint,
        kind == "noise"@ ==> op is Noise,
        names.len() > 0 ==> {
            &&& op matches LayerOp::FieldRef(id) ==> id@ == names[0]
            &&& op matches LayerOp::Slope { of, sample_tiles, mode } ==> of@ == names[0]
        },
{
    reveal_strlit("constant");
    reveal_strlit("fieldref");
    reveal_strlit("slope");
    reveal_strlit("paint");
    reveal_strlit("noise");
    assert("constant"@[0] == 'c' && "fieldref"@[0] == 'f' && "slope"@[0] == 's' && "paint"@[0]
        == 'p' && "noise"@[0] == 'n');
}

/// A table of regions can be read by each of its columns and by the region and the cover.
pub proof fn law_a_table_is_read_by_its_columns(columns: Seq<Seq<char>>, i: int)
    ensures
        output_names(columns).len() == columns.len() + 2,
        0 <= i < columns.len() ==> output_names(columns)[i] == columns[i],
        output_names(columns)[columns.len() as int] == "region_id"@,
        output_names(columns)[columns.len() as int + 1] == "cover_class"@,
{
}

/// A control can be used where there is something to use it on: an op is moved up unless it is
/// the first and down unless it is the last, removed where it is there, and the shift is
/// changed until the document is settled.
pub proof fn law_a_control_is_offered_where_it_can_be_used(stack: Stack, index: usize, shift: u8)
    ensures
        offered(stack, Control::Shift(shift)) <==> !stack.settled,
        offered(stack, Control::Up(index)) <==> 1 <= index && index < stack.count,
        offered(stack, Control::Down(index)) <==> index + 1 < stack.count,
        offered(stack, Control::Remove(index)) <==> index < stack.count,
        offered(stack, Control::AddPaint) <==> !stack.painted,
        offered(stack, Control::RemoveLayer),
{
}

/// A control asks for an edit of the layer on screen: a switch writes its own property on or
/// off, the shift is written as a number of at most eight, an op is moved by one place or
/// removed.
pub proof fn law_a_control_asks_for_its_own_edit(
    edit: Edit,
    active: Seq<char>,
    names: Seq<Seq<char>>,
    on: bool,
    shift: u8,
    index: usize,
)
    ensures
        asked(edit, active, names, Control::Hillshade(on)) ==> (edit matches Edit::Write {
            path,
            words,
        } && path@ == active + "."@ + "hillshade"@ && texts_view(words@) == seq![
            if on {
                "on"@
            } else {
                "off"@
            },
        ]),
        asked(edit, active, names, Control::Contours(on)) ==> (edit matches Edit::Write {
            path,
            words,
        } && path@ == active + "."@ + "contours"@ && texts_view(words@) == seq![
            if on {
                "on"@
            } else {
                "off"@
            },
        ]),
        asked(edit, active, names, Control::Shift(shift)) ==> (edit matches Edit::Write {
            path,
            words,
        } && path@ == active + "."@ + "shift"@ && texts_view(words@) == seq![
            decimal(held_shift(shift) as nat),
        ]),
        shift <= 8 ==> held_shift(shift) == shift,
        shift > 8 ==> held_shift(shift) == 8,
        asked(edit, active, names, Control::Up(index)) ==> (edit matches Edit::Move {
            field,
            index: from,
            to,
        } && field@ == active && from == index && to + 1 == index),
        asked(edit, active, names, Control::Down(index)) ==> (edit matches Edit::Move {
            field,
            index: from,
            to,
        } && field@ == active && from == index && to == index + 1),
        asked(edit, active, names, Control::Remove(index)) ==> (edit matches Edit::Remove {
            field,
            index: from,
        } && field@ == active && from == index),
        asked(edit, active, names, Control::RemoveLayer) ==> (edit matches Edit::RemoveLayer {
            name,
        } && name@ == active),
{
}

/// What a button starts: nothing while a job runs but a look at the document; saving, baking
/// and solving need a document, and a document that is baked whole is not baked again.
pub proof fn law_a_button_starts_what_it_says(standing: Standing)
    ensures
        ({
            let idle = !standing.busy;
            let settled = standing.baked_whole && !standing.dirty;
            &&& started(standing, Button::New) == (if idle {
                Some(Action::ShowDialog)
            } else {
                None
            })
            &&& started(standing, Button::Open) == (if idle {
                Some(Action::Load)
            } else {
                None
            })
            &&& started(standing, Button::Save) == (if idle && standing.has_document {
                Some(Action::Store)
            } else {
                None
            })
            &&& started(standing, Button::BakeAll) is Some <==> idle && standing.has_document
                && !settled
            &&& started(standing, Button::BakeAll) is Some ==> started(standing, Button::BakeAll)
                == Some(Action::Bake)
            &&& started(standing, Button::Solve) is Some <==> idle && standing.has_document
            &&& started(standing, Button::Solve) == Some(Action::SolveBaked) <==> idle
                && standing.has_document && settled
            &&& started(standing, Button::Solve) == Some(Action::BakeAndSolve) <==> idle
                && standing.has_document && !settled
            &&& started(standing, Button::ResetWater) == (if idle && standing.has_water {
                Some(Action::DropWater)
            } else {
                None
            })
            &&& started(standing, Button::Fit) == (if standing.has_document {
                Some(Action::Frame)
            } else {
                None
            })
        }),
{
}

/// A document is described by its columns, then its rows, then its layers; water and a bake
/// that covers only part of it are added where they are.
pub proof fn law_a_document_is_described_by_its_extent(document: Described)
    ensures
        ({
            let text = described(document);
            let head = decimal(document.size.x as nat) + "x"@ + decimal(document.size.y as nat)
                + "  "@ + decimal(document.layers as nat) + " layer(s)"@;
            &&& text.take(head.len() as int) == head
            &&& !document.has_water && document.whole ==> text == head
            &&& document.has_water && document.whole ==> text == head + "  water"@
            &&& !document.has_water && !document.whole ==> text == head + "  preview"@
            &&& document.has_water && !document.whole ==> text == head + "  water"@ + "  preview"@
        }),
{
    reveal_strlit("");
    let head = decimal(document.size.x as nat) + "x"@ + decimal(document.size.y as nat) + "  "@
        + decimal(document.layers as nat) + " layer(s)"@;
    let text = described(document);
    assert(text.take(head.len() as int) =~= head);
    assert(head + ""@ =~= head);
    assert(head + "  water"@ + ""@ =~= head + "  water"@);
}

/// Each row of the list but one that counts is a record in its turn, its level before its
/// message; the row that counts says how many there are that have no row.
pub proof fn law_a_row_is_a_record_in_its_turn(view: LogView, rows: int, i: int)
    requires
        rows > 0,
        0 <= i < rows,
        i < view.lines@.len(),
    ensures
        ({
            let over = view.older + view.lines@.len() > rows || view.older > 0;
            let last = if view.lines@.len() < rows {
                view.lines@.len() - 1
            } else {
                rows - 1
            };
            let text = rows_of(view, rows)[i];
            &&& rows_of(view, rows).len() == last + 1
            &&& !(over && i == last) ==> text == view.lines@[i].level@ + "  "@
                + view.lines@[i].message@
            &&& over && i == last ==> text == "\u{2026} "@ + decimal(
                (view.older + view.lines@.len() - last) as nat,
            ) + " earlier"@
        }),
{
}

/// A recipe that carries a document carries its extent, its seed and its water, and each
/// layer's name, export flag and parameter values in its place.
pub proof fn law_a_recipe_carries_each_layer_in_its_place(
    meta: RecipeMeta,
    spec: TerrainSpec,
    i: int,
)
    requires
        carries(meta, spec),
        0 <= i < spec.fields@.len(),
    ensures
        meta.size.x == spec.size.x && meta.size.y == spec.size.y,
        meta.seed == spec.seed,
        meta.water_spec == spec.water_spec,
        meta.layers@.len() == spec.fields@.len(),
        meta.layers@[i].name@ == spec.fields@[i].id@,
        meta.layers@[i].export == spec.fields@[i].export,
        meta.layers@[i].params@ == spec.fields@[i].shader.params@,
{
    assert(crate::recipe::entry_of(spec.fields@[i], meta.layers@[i]));
}

/// The numbers that are edited as whole ones are the shift and those of the dialog.
pub proof fn law_only_counts_are_edited_as_whole_numbers(binding: NumberBinding)
    ensures
        binding.whole() <==> binding is Shift || binding is DialogWidth || binding is DialogHeight
            || binding is DialogSeed,
{
}

/// A layer that is added gets the name that was typed, and an op that is added is of the kind
/// that was picked and goes to the layer on screen.
pub proof fn law_what_is_added_is_what_was_picked(
    edit: Edit,
    active: Seq<char>,
    names: Seq<Seq<char>>,
    word: String,
)
    ensures
        asked(edit, active, names, Control::AddLayer(word)) ==> (edit matches Edit::AddLayer {
            name,
        } && name@ == word@),
        asked(edit, active, names, Control::AddOp(word)) ==> (edit matches Edit::Add { field, op }
            && field@ == active && is_default_op(op, word@, names)),
        asked(edit, active, names, Control::AddPaint) ==> (edit matches Edit::Add { field, op }
            && field@ == active && op is Paint),
{
}

/// What is added starts from the middle: a constant of one half, a slope over four tiles,
/// noise of the general reading, unwarped and as long as it is wide.
pub proof fn law_an_op_starts_from_the_middle(
    op: LayerOp,
    kind: Seq<char>,
    names: Seq<Seq<char>>,
)
    requires
        is_default_op(op, kind, names),
    ensures
        op matches LayerOp::Constant(value) ==> 2 * value.units() == pow2(149),
        op matches LayerOp::Slope { of, sample_tiles, mode } ==> stands_for(sample_tiles, 4) && mode
            == 0,
        op matches LayerOp::Noise(spec) ==> {
            &&& spec.seed == 1
            &&& spec.kind is Fbm
            &&& spec.salt == 0
            &&& spec.warp is None
            &&& stands_for(spec.transform.aspect, 1)
            &&& stands_for(spec.transform.strike_degrees, 0)
        },
        op matches LayerOp::Paint(raster) ==> raster.data@.len() == 0,
{
    lemma2_to64();
    lemma_stands_for(127, 0, 1);
    lemma_stands_for(129, 0, 4);
    lemma_pow2_pos(149);
    assert(0 * pow2(149) == 0);
    let half = Single(0x3f00_0000);
    assert(half.magnitude() / 0x80_0000 == 126 && half.magnitude() % 0x80_0000 == 0);
    lemma_pow2_adds(23, 125);
    vstd::arithmetic::power2::lemma_pow2_unfold(149);
    assert(half.units() == 0x80_0000 * pow2(125));
}

/// The shape of a layer takes in its role, its shift, its range as printed and its flags, each
/// where it belongs.
pub proof fn law_the_shape_is_the_layers_own(layer: Layer, low: Seq<char>, high: Seq<char>)
    ensures
        shape_of(layer, low, high).role == layer.role,
        shape_of(layer, low, high).shift == layer.shift,
        shape_of(layer, low, high).range.0 == low,
        shape_of(layer, low, high).range.1 == high,
        shape_of(layer, low, high).categorical == layer.categorical,
        shape_of(layer, low, high).hillshade == layer.hillshade,
        shape_of(layer, low, high).contours == layer.contours,
{
}

/// What a new terrain and a new layer start from: noise of five octaves, lakes of at least
/// sixty four cells, light from three hundred and fifteen degrees, and a recipe of at most
/// sixty four mebibytes in the fifth version.
pub proof fn law_a_document_starts_from_these_numbers()
    ensures
        NOISE_OCTAVES == 5,
        DEFAULT_LAKE_MIN_CELLS == 64,
        stands_for(Single(DEFAULT_LIGHT_AZIMUTH), 315),
        stands_for(Single(UNIT), 1),
        MAX_RECIPE_BYTES == 64 * 1024 * 1024,
        RECIPE_VERSION == 5,
{
    lemma2_to64();
    lemma_stands_for(127, 0, 1);
    lemma_stands_for(135, 0x1d_8000, 315);
}

} // verus!
