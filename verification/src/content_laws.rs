//! What holds of every value and what it says: nothing in it changes its place or its meaning.

use vstd::prelude::*;
use crate::annotation::words_view;
use crate::bake::{BakeError, BakeErrorView, BakeStep};
use crate::faults::{faults_view, reasons_view};
use crate::graph::{ids_view, numbers_of, NodeId};
use crate::layer::texts_view;
use crate::names::FieldId;
use crate::panel::{rows_view, PanelRow, PanelRowView};
use crate::params::{
    field_view, fields_view, literals_view, widget_view, Literal, LiteralView, ParamField, Widget,
};
use crate::plan_error::{PlanError, PlanErrorView};
use crate::topology::{places, rows_of};
use crate::water::{WaterError, WaterErrorView};

verus! {

/// A literal says what it spells and what it stands for.
pub proof fn law_a_literal_says_what_it_spells(literal: Literal)
    ensures
        literal matches Literal::Number(word) ==> literal@ == LiteralView::Number(word@),
        literal matches Literal::Srgb(word) ==> literal@ == LiteralView::Srgb(word@),
        literal is Zero ==> literal@ is Zero,
        literal is One ==> literal@ is One,
{
}

/// A slider says its least number, its greatest and its step; the other widgets what they are.
pub proof fn law_a_widget_says_what_it_is(widget: Widget<Literal>)
    ensures
        widget is Color <==> widget_view(widget) is Color,
        widget is Toggle <==> widget_view(widget) is Toggle,
        widget is Hidden <==> widget_view(widget) is Hidden,
        widget matches Widget::Slider { min, max, step } ==> {
            &&& widget_view(widget) is Slider
            &&& widget_view(widget)->min == min@
            &&& widget_view(widget)->max == max@
            &&& step is Some <==> widget_view(widget)->step is Some
            &&& step matches Some(step) ==> widget_view(widget)->step == Some(step@)
        },
{
}

/// A parameter says its name, its label, its group, its type and its place, and each
/// component of its default where it stands.
pub proof fn law_a_parameter_says_what_it_holds(
    fields: Seq<ParamField<Literal>>,
    index: int,
    k: int,
)
    requires
        0 <= index < fields.len(),
    ensures
        ({
            let field = fields[index];
            let said = fields_view(fields)[index];
            &&& fields_view(fields).len() == fields.len()
            &&& said.name == field.name@
            &&& said.label == field.label@
            &&& said.group == field.group@
            &&& said.ty == field.ty
            &&& said.offset == field.offset
            &&& said.widget == widget_view(field.widget)
            &&& said.default.len() == field.default@.len()
            &&& 0 <= k < field.default@.len() ==> said.default[k] == field.default@[k]@
        }),
{
}

/// The colour a parameter is read with is the one that was written: where what a parameter
/// says has a channel at a place of its default, the parameter has that channel there.
pub proof fn law_a_colour_stays_in_its_channel(field: ParamField<Literal>, k: int, word: Seq<char>)
    requires
        0 <= k < field.default@.len(),
    ensures
        field_view(field).default[k] == LiteralView::Srgb(word) ==> (field.default@[k] matches
            Literal::Srgb(spelled) && spelled@ == word),
        field_view(field).default[k] == LiteralView::Number(word) ==> (field.default@[k] matches
            Literal::Number(spelled) && spelled@ == word),
{
    assert(field_view(field).default[k] == field.default@[k]@);
}

/// A list says what each of its items says, in the list's order.
pub proof fn law_a_list_is_said_in_order(
    words: Seq<String>,
    literals: Seq<Literal>,
    ids: Seq<&FieldId>,
    nodes: Seq<NodeId>,
    list: Seq<usize>,
    i: int,
)
    ensures
        words_view(words).len() == words.len() && texts_view(words).len() == words.len(),
        0 <= i < words.len() ==> words_view(words)[i] == words[i]@ && texts_view(words)[i]
            == words[i]@,
        literals_view(literals).len() == literals.len(),
        0 <= i < literals.len() ==> literals_view(literals)[i] == literals[i]@,
        ids_view(ids).len() == ids.len(),
        0 <= i < ids.len() ==> ids_view(ids)[i] == ids[i]@,
        numbers_of(nodes).len() == nodes.len(),
        0 <= i < nodes.len() ==> numbers_of(nodes)[i] == nodes[i].0,
        places(list).len() == list.len(),
        0 <= i < list.len() ==> places(list)[i] == list[i],
{
}

/// What each thing reads is said in the order of the things and of what each reads.
pub proof fn law_rows_are_said_in_order(rows: Seq<Vec<usize>>, i: int, k: int)
    requires
        0 <= i < rows.len(),
        0 <= k < rows[i]@.len(),
    ensures
        rows_of(rows).len() == rows.len(),
        rows_of(rows)[i].len() == rows[i]@.len(),
        rows_of(rows)[i][k] == rows[i]@[k],
{
}

/// A fault says the field it is of, then the reason.
pub proof fn law_a_fault_says_the_field_and_then_the_reason(
    list: Seq<(FieldId, String)>,
    reasons: Seq<Option<String>>,
    i: int,
)
    ensures
        faults_view(list).len() == list.len(),
        0 <= i < list.len() ==> faults_view(list)[i].0 == list[i].0@ && faults_view(list)[i].1
            == list[i].1@,
        reasons_view(reasons).len() == reasons.len(),
        0 <= i < reasons.len() ==> (reasons[i] is Some <==> reasons_view(reasons)[i] is Some),
        0 <= i < reasons.len() && reasons[i] is Some ==> reasons_view(reasons)[i]->0
            == reasons[i]->0@,
{
}

/// A row of the panel says its caption, its parameter and its component.
pub proof fn law_a_row_says_what_it_edits(rows: Seq<PanelRow>, i: int)
    requires
        0 <= i < rows.len(),
    ensures
        rows_view(rows).len() == rows.len(),
        rows[i] matches PanelRow::Group(caption) ==> rows_view(rows)[i] == PanelRowView::Group(
            caption@,
        ),
        rows[i] matches PanelRow::Number { caption, param, component } ==> rows_view(rows)[i] == (
        PanelRowView::Number {
            caption: caption@,
            param: param as int,
            component: component as int,
        }),
{
}

/// A step says what it does, to which field, and what it releases.
pub proof fn law_a_step_says_what_it_does(step: BakeStep, i: int)
    ensures
        step@.kind == step.kind,
        step@.field == step.field@,
        step@.releases.len() == step.releases@.len(),
        0 <= i < step.releases@.len() ==> step@.releases[i] == step.releases@[i]@,
{
}

/// A fault of a plan says what it is and what it is about.
pub proof fn law_a_plan_fault_says_what_it_is_about(error: PlanError)
    ensures
        error matches PlanError::ZeroSize(x, y) ==> error@ == PlanErrorView::ZeroSize(x, y),
        error matches PlanError::DuplicateField(name) ==> error@ == PlanErrorView::DuplicateField(
            name@,
        ),
        error matches PlanError::UnknownField { referenced, reader } ==> error@ == (
        PlanErrorView::UnknownField { referenced: referenced@, reader: reader@ }),
        error matches PlanError::Cycle(chain) ==> error@ == PlanErrorView::Cycle(chain@),
        error matches PlanError::DuplicateRole(role) ==> error@ == PlanErrorView::DuplicateRole(
            role,
        ),
        error is MissingHeightField ==> error@ is MissingHeightField,
        error matches PlanError::CoarseHeight(name, shift) ==> error@
            == PlanErrorView::CoarseHeight(name@, shift),
        error matches PlanError::ShaderDispatch { field, reason } ==> error@ == (
        PlanErrorView::ShaderDispatch { field: field@, reason: reason@ }),
{
}

/// A fault of the water or of a bake says what it is and what it is about.
pub proof fn law_a_bake_fault_says_what_it_is_about(error: BakeError, water: WaterError)
    ensures
        error is NoStepRemaining ==> error@ is NoStepRemaining,
        error matches BakeError::StepsRemaining(count) ==> error@ == BakeErrorView::StepsRemaining(
            count,
        ),
        error matches BakeError::WaterSolve(inner) ==> error@ == BakeErrorView::WaterSolve(inner@),
        error matches BakeError::Plan(inner) ==> error@ == BakeErrorView::Plan(inner@),
        error matches BakeError::Channel(field) ==> error@ == BakeErrorView::Channel(field@),
        water matches WaterError::ZeroSize(x, y) ==> water@ == WaterErrorView::ZeroSize(x, y),
        water matches WaterError::UnknownHeightField(name) ==> water@
            == WaterErrorView::UnknownHeightField(name@),
        water matches WaterError::UnknownMoistureField(name) ==> water@
            == WaterErrorView::UnknownMoistureField(name@),
        water matches WaterError::CoarseHeight(name, shift) ==> water@
            == WaterErrorView::CoarseHeight(name@, shift),
        water matches WaterError::UnbakedHeight(name) ==> water@ == WaterErrorView::UnbakedHeight(
            name@,
        ),
{
}

} // verus!
