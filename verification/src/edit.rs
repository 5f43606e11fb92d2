//! What the controls of a panel ask of the document.
//!
//! Structural changes are collected rather than made: the list is being walked as it is drawn,
//! and an add or a remove partway through it is the one thing that cannot be done in place.

use vstd::prelude::*;
use crate::form::{default_op, is_default_op, LayerOp};
use crate::layer::texts_view;
use crate::raster::{Raster, UVec2};
use crate::text::{decimal, decimal_of};

verus! {

/// A change to the document.
#[derive(Debug)]
pub enum Edit {
    /// Writes a property, named by its path, from words.
    Write {
        /// The layer and the property.
        path: String,
        /// The words.
        words: Vec<String>,
    },
    /// Moves an op of a field's stack.
    Move {
        /// The field.
        field: String,
        /// From where.
        index: usize,
        /// To where.
        to: usize,
    },
    /// Takes an op out of a field's stack.
    Remove {
        /// The field.
        field: String,
        /// Where from.
        index: usize,
    },
    /// Puts an op on a field's stack.
    Add {
        /// The field.
        field: String,
        /// The op.
        op: LayerOp,
    },
    /// Adds a layer to the document.
    AddLayer {
        /// What it is to be called.
        name: String,
    },
    /// Removes a layer from the document.
    RemoveLayer {
        /// What it is called.
        name: String,
    },
}

/// A control that was used.
#[derive(Debug)]
pub enum Control {
    /// The shift was dragged to a number.
    Shift(u8),
    /// The hillshade was turned on or off.
    Hillshade(bool),
    /// The contours were turned on or off.
    Contours(bool),
    /// An op was moved up.
    Up(usize),
    /// An op was moved down.
    Down(usize),
    /// An op was removed.
    Remove(usize),
    /// An op of a kind was added.
    AddOp(String),
    /// A paint op was added from the brush.
    AddPaint,
    /// A layer was added by name.
    AddLayer(String),
    /// The layer on screen was removed.
    RemoveLayer,
}

/// The stack that a panel shows, as far as its controls care.
#[derive(Clone, Copy, Debug, PartialEq, Eq, Structural)]
pub struct Stack {
    /// How many ops it has.
    pub count: usize,
    /// Whether its shift is not to be edited.
    pub settled: bool,
    /// Whether a drag already has an op to paint on.
    pub painted: bool,
}

/// The greatest shift that can be dragged to.
pub const MOST_SHIFT: u8 = 8;

/// Whether an edit writes one word to a property of a layer.
pub open spec fn writes(edit: Edit, active: Seq<char>, property: Seq<char>, word: Seq<char>) -> bool {
    match edit {
        Edit::Write { path, words } => path@ == active + "."@ + property && texts_view(words@)
            == seq![word],
        _ => false,
    }
}

/// A shift as it can be dragged to.
pub open spec fn held_shift(shift: u8) -> u8 {
    if shift > MOST_SHIFT {
        MOST_SHIFT
    } else {
        shift
    }
}

/// On or off.
pub open spec fn switched(on: bool) -> Seq<char> {
    if on {
        "on"@
    } else {
        "off"@
    }
}

/// Whether a control can be used on a stack.
pub open spec fn offered(stack: Stack, control: Control) -> bool {
    match control {
        Control::Shift(_) => !stack.settled,
        Control::Up(index) => 0 < index < stack.count,
        Control::Down(index) => index + 1 < stack.count,
        Control::Remove(index) => index < stack.count,
        Control::AddPaint => !stack.painted,
        _ => true,
    }
}

/// Whether an edit is what a control asks of the layer on screen.
pub open spec fn asked(
    edit: Edit,
    active: Seq<char>,
    names: Seq<Seq<char>>,
    control: Control,
) -> bool {
    match control {
        Control::Shift(shift) => writes(
            edit,
            active,
            "shift"@,
            decimal(held_shift(shift) as nat),
        ),
        Control::Hillshade(on) => writes(edit, active, "hillshade"@, switched(on)),
        Control::Contours(on) => writes(edit, active, "contours"@, switched(on)),
        Control::Up(index) => match edit {
            Edit::Move { field, index: from, to } => field@ == active && from == index && to
                == index - 1,
            _ => false,
        },
        Control::Down(index) => match edit {
            Edit::Move { field, index: from, to } => field@ == active && from == index && to
                == index + 1,
            _ => false,
        },
        Control::Remove(index) => match edit {
            Edit::Remove { field, index: from } => field@ == active && from == index,
            _ => false,
        },
        Control::AddOp(kind) => match edit {
            Edit::Add { field, op } => field@ == active && is_default_op(op, kind@, names),
            _ => false,
        },
        Control::AddPaint => match edit {
            Edit::Add { field, op } => field@ == active && (op matches LayerOp::Paint(raster)
                && raster.wf() && raster.size == (UVec2 { x: 0, y: 0 })),
            _ => false,
        },
        Control::AddLayer(name) => match edit {
            Edit::AddLayer { name: given } => given@ == name@,
            _ => false,
        },
        Control::RemoveLayer => match edit {
            Edit::RemoveLayer { name } => name@ == active,
            _ => false,
        },
    }
}

/// The edit that writes one word to a property of a layer.
pub fn property_edit(active: &str, property: &str, word: String) -> (edit: Edit)
    ensures
        writes(edit, active@, property@, word@),
{
    let mut path: String = String::from_str(active);
    path.append(".");
    path.append(property);
    let mut words: Vec<String> = Vec::new();
    let ghost said = word@;
    words.push(word);
    proof {
        assert(texts_view(words@) =~= seq![said]);
    }
    Edit::Write { path, words }
}

fn switch(on: bool) -> (word: String)
    ensures
        word@ == switched(on),
{
    if on {
        String::from_str("on")
    } else {
        String::from_str("off")
    }
}

/// What a control asks of the layer on screen, where it can be used.
pub fn ask(active: &str, names: &Vec<String>, stack: Stack, control: Control) -> (edit: Option<
    Edit,
>)
    ensures
        match edit {
            Some(edit) => offered(stack, control) && asked(
                edit,
                active@,
                texts_view(names@),
                control,
            ),
            None => !offered(stack, control),
        },
{
    match control {
        Control::Shift(shift) => if stack.settled {
            None
        } else {
            let held: u8 = if shift > MOST_SHIFT {
                MOST_SHIFT
            } else {
                shift
            };
            Some(property_edit(active, "shift", decimal_of(held as u128)))
        },
        Control::Hillshade(on) => Some(property_edit(active, "hillshade", switch(on))),
        Control::Contours(on) => Some(property_edit(active, "contours", switch(on))),
        Control::Up(index) => if index > 0 && index < stack.count {
            Some(Edit::Move { field: String::from_str(active), index, to: index - 1 })
        } else {
            None
        },
        Control::Down(index) => if stack.count > 0 && index < stack.count - 1 {
            Some(Edit::Move { field: String::from_str(active), index, to: index + 1 })
        } else {
            None
        },
        Control::Remove(index) => if index < stack.count {
            Some(Edit::Remove { field: String::from_str(active), index })
        } else {
            None
        },
        Control::AddOp(kind) => Some(
            Edit::Add { field: String::from_str(active), op: default_op(kind.as_str(), names) },
        ),
        Control::AddPaint => if stack.painted {
            None
        } else {
            Some(
                Edit::Add { field: String::from_str(active), op: LayerOp::Paint(Raster::empty()) },
            )
        },
        Control::AddLayer(name) => Some(Edit::AddLayer { name }),
        Control::RemoveLayer => Some(Edit::RemoveLayer { name: String::from_str(active) }),
    }
}

/// What a frame of a panel leaves to be done.
#[derive(Debug)]
pub enum Outcome {
    /// A structural change is to be made.
    Apply(Edit),
    /// A number was changed in place and has to be noted.
    Note,
    /// Nothing.
    Nothing,
}

/// What a frame of a panel leaves to be done: the structural change that was asked for, or else
/// a note that something was changed in place.
pub fn settle(structural: Option<Edit>, changed: bool) -> (outcome: Outcome)
    ensures
        outcome == (match structural {
            Some(edit) => Outcome::Apply(edit),
            None => if changed {
                Outcome::Note
            } else {
                Outcome::Nothing
            },
        }),
{
    match structural {
        Some(edit) => Outcome::Apply(edit),
        None => if changed {
            Outcome::Note
        } else {
            Outcome::Nothing
        },
    }
}

/// Moving an op down is undone by moving it up from where it went.
pub proof fn law_a_move_down_is_undone_by_a_move_up(
    stack: Stack,
    active: Seq<char>,
    names: Seq<Seq<char>>,
    index: usize,
    down: Edit,
)
    requires
        offered(stack, Control::Down(index)),
        asked(down, active, names, Control::Down(index)),
    ensures
        match down {
            Edit::Move { to, .. } => {
                &&& offered(stack, Control::Up(to))
                &&& forall|up: Edit| #[trigger]
                    asked(up, active, names, Control::Up(to)) ==> (up matches Edit::Move {
                        index: from,
                        to: back,
                        ..
                    } && from == to && back == index)
            },
            _ => false,
        },
{
}

} // verus!
