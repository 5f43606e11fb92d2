//! What is structurally wrong with a document.

use vstd::prelude::*;
use crate::names::FieldRole;
use crate::text::{decimal, decimal_of};

verus! {

/// Everything structurally wrong with a document, and the one fault that is not.
///
/// Planning is what these are for: a document that plans can be baked, and a bake that has
/// started cannot fail any of these ways, [`PlanError::ShaderDispatch`] excepted, which is
/// raised while a field is being evaluated, because the raster a sampling shader reads is
/// produced inside the bake.
#[derive(Debug)]
pub enum PlanError {
    /// The document has no cells.
    ZeroSize(u32, u32),
    /// Two fields carry the same id, so a reference to it is ambiguous.
    DuplicateField(String),
    /// A shader reads a field the document does not carry. Names both, because the read is
    /// in the reader and the mistake may be in either.
    UnknownField {
        /// The name that could not be resolved.
        referenced: String,
        /// The field whose shader names it.
        reader: String,
    },
    /// The fields cannot be ordered. Carries the cycle as a `->` chain of names.
    Cycle(String),
    /// Two fields claim `Height` or two claim `Moisture`, so a role lookup would be
    /// ambiguous.
    DuplicateRole(FieldRole),
    /// The document declares water and no field holds `Height` to solve it over.
    MissingHeightField,
    /// The `Height` field is coarser than the document; the water solve reads one texel per
    /// cell and will not resample.
    CoarseHeight(String, u8),
    /// A field's shader could not be dispatched. The one fault here that is raised during
    /// evaluation rather than before it.
    ShaderDispatch {
        /// The field whose shader it is.
        field: String,
        /// What the dispatch answered.
        reason: String,
    },
}

/// What a [`PlanError`] says.
pub enum PlanErrorView {
    /// The document has no cells.
    ZeroSize(u32, u32),
    /// Two fields carry the same id.
    DuplicateField(Seq<char>),
    /// A shader reads a field the document does not carry.
    UnknownField {
        /// The name that could not be resolved.
        referenced: Seq<char>,
        /// The field whose shader names it.
        reader: Seq<char>,
    },
    /// The fields cannot be ordered.
    Cycle(Seq<char>),
    /// Two fields claim one role.
    DuplicateRole(FieldRole),
    /// Water is declared over no height.
    MissingHeightField,
    /// The height is coarser than the document.
    CoarseHeight(Seq<char>, u8),
    /// A shader did not run.
    ShaderDispatch {
        /// The field whose shader it is.
        field: Seq<char>,
        /// What the dispatch answered.
        reason: Seq<char>,
    },
}

impl View for PlanError {
    type V = PlanErrorView;

    open spec fn view(&self) -> PlanErrorView {
        match self {
            PlanError::ZeroSize(x, y) => PlanErrorView::ZeroSize(*x, *y),
            PlanError::DuplicateField(name) => PlanErrorView::DuplicateField(name@),
            PlanError::UnknownField { referenced, reader } => PlanErrorView::UnknownField {
                referenced: referenced@,
                reader: reader@,
            },
            PlanError::Cycle(chain) => PlanErrorView::Cycle(chain@),
            PlanError::DuplicateRole(role) => PlanErrorView::DuplicateRole(*role),
            PlanError::MissingHeightField => PlanErrorView::MissingHeightField,
            PlanError::CoarseHeight(name, shift) => PlanErrorView::CoarseHeight(name@, *shift),
            PlanError::ShaderDispatch { field, reason } => PlanErrorView::ShaderDispatch {
                field: field@,
                reason: reason@,
            },
        }
    }
}

/// How a field that reads an unknown name is described.
pub open spec fn unknown_shown(referenced: Seq<char>, reader: Seq<char>) -> Seq<char> {
    "field `"@ + referenced + "`, read by `"@ + reader + "`, is not in the document"@
}

impl PlanErrorView {
    /// The fault in words.
    pub open spec fn shown(self) -> Seq<char> {
        match self {
            PlanErrorView::ZeroSize(x, y) => "terrain size has a zero component: "@ + decimal(
                x as nat,
            ) + " by "@ + decimal(y as nat),
            PlanErrorView::DuplicateField(name) => "two fields share the id `"@ + name + "`"@,
            PlanErrorView::UnknownField { referenced, reader } => unknown_shown(referenced, reader),
            PlanErrorView::Cycle(chain) => "fields depend on each other in a cycle: "@ + chain,
            PlanErrorView::DuplicateRole(role) => "two fields claim the role `"@ + role.shown()
                + "`"@,
            PlanErrorView::MissingHeightField =>
                "water is declared and no field holds the role `height`"@,
            PlanErrorView::CoarseHeight(name, shift) => "field `"@ + name
                + "` holds the role `height` at shift "@ + decimal(shift as nat),
            PlanErrorView::ShaderDispatch { field, reason } => "the shader of field `"@ + field
                + "` did not run: "@ + reason,
        }
    }
}

/// The description of a field that reads an unknown name.
pub fn unknown_message(referenced: &str, reader: &str) -> (text: String)
    ensures
        text@ == unknown_shown(referenced@, reader@),
{
    let mut text: String = String::from_str("field `");
    text.append(referenced);
    text.append("`, read by `");
    text.append(reader);
    text.append("`, is not in the document");
    text
}

impl PlanError {
    /// The fault in words.
    pub fn message(&self) -> (text: String)
        ensures
            text@ == self@.shown(),
    {
        match self {
            PlanError::ZeroSize(x, y) => {
                let mut text: String = String::from_str("terrain size has a zero component: ");
                text.append(decimal_of(*x as u128).as_str());
                text.append(" by ");
                text.append(decimal_of(*y as u128).as_str());
                text
            },
            PlanError::DuplicateField(name) => {
                let mut text: String = String::from_str("two fields share the id `");
                text.append(name.as_str());
                text.append("`");
                text
            },
            PlanError::UnknownField { referenced, reader } => unknown_message(
                referenced.as_str(),
                reader.as_str(),
            ),
            PlanError::Cycle(chain) => {
                let mut text: String = String::from_str("fields depend on each other in a cycle: ");
                text.append(chain.as_str());
                text
            },
            PlanError::DuplicateRole(role) => {
                let mut text: String = String::from_str("two fields claim the role `");
                text.append(role.as_str());
                text.append("`");
                text
            },
            PlanError::MissingHeightField => String::from_str(
                "water is declared and no field holds the role `height`",
            ),
            PlanError::CoarseHeight(name, shift) => {
                let mut text: String = String::from_str("field `");
                text.append(name.as_str());
                text.append("` holds the role `height` at shift ");
                text.append(decimal_of(*shift as u128).as_str());
                text
            },
            PlanError::ShaderDispatch { field, reason } => {
                let mut text: String = String::from_str("the shader of field `");
                text.append(field.as_str());
                text.append("` did not run: ");
                text.append(reason.as_str());
                text
            },
        }
    }
}

} // verus!
