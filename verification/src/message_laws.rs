//! What holds of every message: what it names, and in which order.

use vstd::prelude::*;
use crate::bake::BakeError;
use crate::faults::{chained, circle_reason, stuck_shown};
use crate::form::{extent_text, Mask, RegionOutput};
use crate::graph::{id_shown, GraphError, NodeId};
use crate::log::captioned;
use crate::names::FieldRole;
use crate::panel::{file_key, params_key};
use crate::params::{ParamError, ParamField};
use crate::plan_error::{unknown_shown, PlanErrorView};
use crate::raster::UVec2;
use crate::recipe::RecipeError;
use crate::single::Single;
use crate::text::decimal;
use crate::water::WaterError;

verus! {

/// A node is named by its id.
pub proof fn law_a_node_is_named_by_its_id(id: NodeId)
    ensures
        id_shown(id) == "NodeId("@ + decimal(id.0 as nat) + ")"@,
{
}

/// A refused edit names the node it is about; a pin out of range says how many pins there are
/// and then which was asked for, and a wire that would close a circle where it starts and
/// then where it ends.
pub proof fn law_a_refusal_names_its_nodes_in_order(error: GraphError)
    ensures
        error matches GraphError::UnknownNode(id) ==> error.shown() == "this field has no node "@
            + id_shown(id),
        error matches GraphError::PinOutOfRange { node, pin, arity } ==> error.shown() == "node "@
            + id_shown(node) + " has "@ + decimal(arity as nat) + " inputs, so there is no pin "@
            + decimal(pin as nat),
        error matches GraphError::WouldCycle { from, to } ==> error.shown() == "connecting "@
            + id_shown(from) + " to "@ + id_shown(to) + " would close a cycle"@,
        error matches GraphError::DuplicateName(name) ==> error.shown()
            == "this field already has a node named `"@ + name@ + "`"@,
        error matches GraphError::ReservedName(name) ==> error.shown() == "`"@ + name@
            + "` is the path form of a node id and cannot be a name"@,
{
}

/// A fault of a plan names the field that is read before the one that reads it, columns
/// before rows, and a field before its shift or its reason.
pub proof fn law_a_plan_fault_names_what_is_read_first(error: PlanErrorView)
    ensures
        error matches PlanErrorView::ZeroSize(x, y) ==> error.shown()
            == "terrain size has a zero component: "@ + decimal(x as nat) + " by "@ + decimal(
            y as nat,
        ),
        error matches PlanErrorView::UnknownField { referenced, reader } ==> error.shown()
            == "field `"@ + referenced + "`, read by `"@ + reader + "`, is not in the document"@,
        error matches PlanErrorView::DuplicateField(name) ==> error.shown()
            == "two fields share the id `"@ + name + "`"@,
        error matches PlanErrorView::Cycle(chain) ==> error.shown()
            == "fields depend on each other in a cycle: "@ + chain,
        error matches PlanErrorView::CoarseHeight(name, shift) ==> error.shown() == "field `"@
            + name + "` holds the role `height` at shift "@ + decimal(shift as nat),
        error matches PlanErrorView::ShaderDispatch { field, reason } ==> error.shown()
            == "the shader of field `"@ + field + "` did not run: "@ + reason,
        error matches PlanErrorView::DuplicateRole(role) ==> error.shown()
            == "two fields claim the role `"@ + role.shown() + "`"@,
        FieldRole::Height.shown() == "height"@,
        FieldRole::Moisture.shown() == "moisture"@,
        FieldRole::Custom.shown() == "custom"@,
{
}

/// A fault of the water names the field it is about.
pub proof fn law_a_water_fault_names_its_field(error: WaterError)
    ensures
        error matches WaterError::ZeroSize(x, y) ==> error.shown()
            == "terrain size has a zero component: "@ + decimal(x as nat) + " by "@ + decimal(
            y as nat,
        ),
        error matches WaterError::UnknownHeightField(name) ==> error.shown() == "height field `"@
            + name@ + "` is not in the document"@,
        error matches WaterError::UnknownMoistureField(name) ==> error.shown()
            == "moisture field `"@ + name@ + "` is not in the document"@,
        error matches WaterError::CoarseHeight(name, shift) ==> error.shown() == "height field `"@
            + name@ + "` is at shift "@ + decimal(shift as nat)
            + "; the solve reads one texel per cell"@,
        error matches WaterError::UnbakedHeight(name) ==> error.shown() == "height field `"@ + name@
            + "` has not been baked at the document's size"@,
{
}

/// A fault of a bake counts the steps that are left, or names the field or the fault inside.
pub proof fn law_a_bake_fault_counts_what_is_left(error: BakeError)
    ensures
        error matches BakeError::StepsRemaining(count) ==> error.shown() == decimal(count as nat)
            + " step(s) of the plan have not run"@,
        error matches BakeError::Channel(field) ==> error.shown() == "field `"@ + field@
            + "` holds a class that is not whole"@,
        error matches BakeError::WaterSolve(inner) ==> error.shown() == inner.shown(),
        error matches BakeError::Plan(inner) ==> error.shown() == inner@.shown(),
{
}

/// A recipe that cannot be read says how large it is or which version it has.
pub proof fn law_a_recipe_fault_says_its_number(error: RecipeError)
    ensures
        error matches RecipeError::TooLarge(bytes) ==> error.shown() == "recipe.ron is "@ + decimal(
            bytes as nat,
        ) + " bytes, over the 67108864 byte limit"@,
        error matches RecipeError::UnsupportedVersion(version) ==> error.shown()
            == "recipe version "@ + decimal(version as nat)
            + " is not supported; this build reads 5"@,
{
}

/// A field that cannot bake for another's sake is named before the other; a circle is written
/// from its first field on, an arrow before each that follows.
pub proof fn law_a_chain_is_written_from_its_start(
    names: Seq<Seq<char>>,
    name: Seq<char>,
    id: Seq<char>,
)
    ensures
        stuck_shown(id, name) == "field `"@ + id + "` reads `"@ + name + "`, which cannot bake"@,
        unknown_shown(name, id) == "field `"@ + name + "`, read by `"@ + id
            + "`, is not in the document"@,
        names.len() > 0 ==> chained(names.push(name)) == chained(names) + " -> "@ + name,
        chained(seq![name]) == name,
        names.len() > 0 ==> circle_reason(names, seq![0int]) == "cycle: "@ + names[0],
{
    assert(names.push(name).drop_last() =~= names);
    if names.len() > 0 {
        assert(crate::faults::names_at(names, seq![0int]) =~= seq![names[0]]);
    }
}

/// An extent is written as its columns by its rows.
pub proof fn law_an_extent_is_columns_by_rows(size: UVec2, what: Seq<char>)
    ensures
        extent_text(size, what) == decimal(size.x as nat) + "x"@ + decimal(size.y as nat) + what,
{
}

/// An output of a table is called by its column or by what it reads, and a mask by its kind.
pub proof fn law_what_is_chosen_is_called_by_its_kind(output: RegionOutput, mask: Mask)
    ensures
        output matches RegionOutput::Column(name) ==> output.called() == name@,
        output is RegionId ==> output.called() == "region_id"@,
        output is CoverClass ==> output.called() == "cover_class"@,
        mask is Constant ==> mask.called() == "constant"@,
        mask is Painted ==> mask.called() == "painted"@,
        mask is Field ==> mask.called() == "field"@,
{
}

/// The list of records is headed by how many are held and, where there are any, how many of
/// them are errors.
pub proof fn law_the_header_counts_records_and_errors(held: u64, errors: u64)
    ensures
        held == 0 ==> captioned(held, errors) == "log"@,
        held > 0 && errors == 0 ==> captioned(held, errors) == "log \u{2014} "@ + decimal(
            held as nat,
        ) + " held"@,
        held > 0 && errors == 1 ==> captioned(held, errors) == "log \u{2014} "@ + decimal(
            held as nat,
        ) + " held, "@ + decimal(1) + " error"@,
        held > 0 && errors > 1 ==> captioned(held, errors) == "log \u{2014} "@ + decimal(
            held as nat,
        ) + " held, "@ + decimal(errors as nat) + " errors"@,
{
    reveal_strlit("");
    reveal_strlit("s");
    reveal_strlit(" error");
    reveal_strlit(" errors");
    let head = "log \u{2014} "@ + decimal(held as nat) + " held, "@ + decimal(errors as nat);
    assert(head + " error"@ + ""@ =~= head + " error"@);
    assert(" error"@ + "s"@ =~= " errors"@);
    assert(head + " error"@ + "s"@ =~= head + (" error"@ + "s"@));
}

/// The shape of a panel takes in the group and the label of each parameter in order, and
/// whether the file is there and read without a fault.
pub proof fn law_a_parameter_is_part_of_the_shape(
    fields: Seq<ParamField<Single>>,
    field: ParamField<Single>,
)
    ensures
        params_key(fields.push(field)) == params_key(fields) + ":"@ + field.group@ + "/"@
            + field.label@,
        file_key(Some(fields), false) != file_key(Some(fields), true),
        file_key(None, false) == ":missing"@,
        file_key(Some(fields), false) == params_key(fields) + ":good"@,
        file_key(Some(fields), true) == params_key(fields) + ":broken"@,
{
    assert(fields.push(field).drop_last() =~= fields);
    reveal_strlit(":good");
    reveal_strlit(":broken");
    assert(file_key(Some(fields), false).len() == params_key(fields).len() + 5);
    assert(file_key(Some(fields), true).len() == params_key(fields).len() + 7);
}

/// A fault in a shader's parameters says its line, where it has one, before what is wrong.
pub proof fn law_a_parameter_fault_says_its_line_first(error: ParamError)
    ensures
        error.line == 0 ==> error.shown() == error.reason@,
        error.line > 0 ==> error.shown() == "line "@ + decimal(error.line as nat) + ": "@
            + error.reason@,
{
}

} // verus!
