//! What the strip along the top offers and says.

use vstd::prelude::*;
use crate::layer::texts_view;
use crate::layout::same_text;
use crate::raster::UVec2;
use crate::text::{decimal, decimal_of};

verus! {

/// What the run is doing, as far as the toolbar cares.
#[derive(Clone, Copy, Debug, PartialEq, Eq, Structural)]
pub struct Standing {
    /// A job is running.
    pub busy: bool,
    /// There is a document.
    pub has_document: bool,
    /// There is solved water.
    pub has_water: bool,
    /// The bake covers the whole document.
    pub baked_whole: bool,
    /// The document has been edited since.
    pub dirty: bool,
}

/// Which buttons can be pressed.
#[derive(Clone, Copy, Debug, PartialEq, Eq, Structural)]
pub struct Buttons {
    /// Opens the new-terrain dialog. Disabled while a job is running.
    pub new: bool,
    /// Opens a document from a path. Disabled while a job is running.
    pub open: bool,
    /// Writes the document. Disabled while a job is running or there is no document.
    pub save: bool,
    /// Bakes the whole document. Disabled unless there is something left to bake: an edit only
    /// re-bakes what is on screen, and this is how the rest catches up.
    pub bake_all: bool,
    /// Solves the water, baking first if it has to. Enabled whenever there is a document: a
    /// button that went dead after every edit is indistinguishable from a broken one.
    pub solve: bool,
    /// Discards the solved water. Disabled unless there is some.
    pub reset_water: bool,
}

impl Standing {
    /// Whether the document is baked whole and has not been edited since.
    pub open spec fn settled(self) -> bool {
        self.baked_whole && !self.dirty
    }

    /// Whether the document is baked whole and has not been edited since.
    pub fn whole(self) -> (answer: bool)
        ensures
            answer == self.settled(),
    {
        self.baked_whole && !self.dirty
    }

    /// Which buttons the document can currently take.
    pub fn buttons(self) -> (buttons: Buttons)
        ensures
            buttons == (Buttons {
                new: !self.busy,
                open: !self.busy,
                save: !self.busy && self.has_document,
                bake_all: !self.busy && !self.settled() && self.has_document,
                solve: !self.busy && self.has_document,
                reset_water: !self.busy && self.has_water,
            }),
    {
        Buttons {
            new: !self.busy,
            open: !self.busy,
            save: !self.busy && self.has_document,
            bake_all: !self.busy && !self.whole() && self.has_document,
            solve: !self.busy && self.has_document,
            reset_water: !self.busy && self.has_water,
        }
    }
}

/// A button of the toolbar.
#[derive(Clone, Copy, Debug, PartialEq, Eq, Structural)]
pub enum Button {
    /// Opens the new-terrain dialog.
    New,
    /// Opens a document from the path typed.
    Open,
    /// Writes the document to it.
    Save,
    /// Bakes the whole document.
    BakeAll,
    /// Solves the water.
    Solve,
    /// Discards the solved water.
    ResetWater,
    /// Puts the whole document in view.
    Fit,
}

/// What a press of a button starts.
#[derive(Clone, Copy, Debug, PartialEq, Eq, Structural)]
pub enum Action {
    /// The new-terrain dialog is shown.
    ShowDialog,
    /// A document is loaded.
    Load,
    /// The document is saved.
    Store,
    /// The whole document is baked.
    Bake,
    /// The water is solved over a whole bake.
    SolveBaked,
    /// The whole document is baked, and the water solved over it.
    BakeAndSolve,
    /// The water is dropped.
    DropWater,
    /// The camera is moved to show the whole document.
    Frame,
}

/// What a press of a button starts, where it can be pressed.
pub open spec fn started(standing: Standing, button: Button) -> Option<Action> {
    let idle = !standing.busy;
    match button {
        Button::New => if idle {
            Some(Action::ShowDialog)
        } else {
            None
        },
        Button::Open => if idle {
            Some(Action::Load)
        } else {
            None
        },
        Button::Save => if idle && standing.has_document {
            Some(Action::Store)
        } else {
            None
        },
        Button::BakeAll => if idle && standing.has_document && !standing.settled() {
            Some(Action::Bake)
        } else {
            None
        },
        Button::Solve => if !idle || !standing.has_document {
            None
        } else if standing.settled() {
            Some(Action::SolveBaked)
        } else {
            Some(Action::BakeAndSolve)
        },
        Button::ResetWater => if idle && standing.has_water {
            Some(Action::DropWater)
        } else {
            None
        },
        Button::Fit => if standing.has_document {
            Some(Action::Frame)
        } else {
            None
        },
    }
}

impl Standing {
    /// What a press of a button starts; nothing where the button is disabled.
    pub fn press(self, button: Button) -> (action: Option<Action>)
        ensures
            action == started(self, button),
    {
        let buttons: Buttons = self.buttons();
        match button {
            Button::New if buttons.new => Some(Action::ShowDialog),
            Button::Open if buttons.open => Some(Action::Load),
            Button::Save if buttons.save => Some(Action::Store),
            Button::BakeAll if buttons.bake_all => Some(Action::Bake),
            Button::Solve if buttons.solve => if self.whole() {
                Some(Action::SolveBaked)
            } else {
                Some(Action::BakeAndSolve)
            },
            Button::ResetWater if buttons.reset_water => Some(Action::DropWater),
            Button::Fit if self.has_document => Some(Action::Frame),
            _ => None,
        }
    }

    /// What hovering over the solve button says it will do.
    pub fn solve_hint(self) -> (text: &'static str)
        ensures
            text@ == (if self.settled() {
                "solve the water"@
            } else {
                "bake the whole document, then solve"@
            }),
    {
        if self.whole() {
            "solve the water"
        } else {
            "bake the whole document, then solve"
        }
    }
}

/// A busy document starts nothing that touches it.
pub proof fn law_a_busy_document_starts_nothing(standing: Standing, button: Button)
    requires
        standing.busy,
        button != Button::Fit,
    ensures
        started(standing, button) is None,
{
}

/// A document as the status line describes it.
#[derive(Clone, Copy, Debug, PartialEq, Eq, Structural)]
pub struct Described {
    /// The extent in cells.
    pub size: UVec2,
    /// How many layers it has.
    pub layers: usize,
    /// Whether it has solved water.
    pub has_water: bool,
    /// Whether the bake covers all of it.
    pub whole: bool,
}

/// How a document is described.
pub open spec fn described(document: Described) -> Seq<char> {
    decimal(document.size.x as nat) + "x"@ + decimal(document.size.y as nat) + "  "@ + decimal(
        document.layers as nat,
    ) + " layer(s)"@ + (if document.has_water {
        "  water"@
    } else {
        ""@
    }) + (if document.whole {
        ""@
    } else {
        "  preview"@
    })
}

/// What the status line says: the running job, else the last refusal, else a description of
/// the document. A job in flight is the answer to most of "why has nothing changed", so it
/// takes precedence over everything else the line could say.
pub fn status_line(job: Option<&str>, error: Option<&str>, document: Option<Described>) -> (line:
    String)
    ensures
        line@ == (match job {
            Some(name) => name@ + "\u{2026}"@,
            None => match error {
                Some(error) => error@,
                None => match document {
                    Some(document) => described(document),
                    None => "no document"@,
                },
            },
        }),
{
    if let Some(name) = job {
        let mut line: String = String::from_str(name);
        line.append("\u{2026}");
        return line;
    }
    if let Some(error) = error {
        return String::from_str(error);
    }
    match document {
        Some(document) => {
            let mut line: String = decimal_of(document.size.x as u128);
            line.append("x");
            line.append(decimal_of(document.size.y as u128).as_str());
            line.append("  ");
            line.append(decimal_of(document.layers as u128).as_str());
            line.append(" layer(s)");
            line.append(
                if document.has_water {
                    "  water"
                } else {
                    ""
                },
            );
            line.append(
                if document.whole {
                    ""
                } else {
                    "  preview"
                },
            );
            line
        },
        None => String::from_str("no document"),
    }
}

/// Whether a menu built from one list of names has to be built again for another: it holds
/// other names, or the same in another order.
pub fn menu_is_stale(built: &Vec<String>, names: &Vec<String>) -> (answer: bool)
    ensures
        answer == (texts_view(built@) != texts_view(names@)),
{
    if built.len() != names.len() {
        proof {
            assert(texts_view(built@).len() != texts_view(names@).len());
        }
        return true;
    }
    let mut i: usize = 0;
    while i < names.len()
        invariant
            i <= names@.len(),
            built@.len() == names@.len(),
            forall|j: int| 0 <= j < i ==> texts_view(built@)[j] == texts_view(names@)[j],
        decreases names@.len() - i,
    {
        if !same_text(built[i].as_str(), names[i].as_str()) {
            proof {
                assert(texts_view(built@)[i as int] != texts_view(names@)[i as int]);
            }
            return true;
        }
        i = i + 1;
    }
    proof {
        assert(texts_view(built@) =~= texts_view(names@));
    }
    false
}

} // verus!
