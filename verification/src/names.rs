//! What fields are called and what they are for.

use vstd::prelude::*;
use crate::layout::same_text;

verus! {

/// A field's name. Any string is accepted; uniqueness is checked when a document is
/// planned.
#[derive(Debug)]
pub struct FieldId {
    name: String,
}

impl View for FieldId {
    type V = Seq<char>;

    closed spec fn view(&self) -> Seq<char> {
        self.name@
    }
}

impl FieldId {
    /// The name `name`.
    pub fn new(name: &str) -> (id: FieldId)
        ensures
            id@ == name@,
    {
        FieldId { name: String::from_str(name) }
    }

    /// The name.
    pub fn as_str(&self) -> (name: &str)
        ensures
            name@ == self@,
    {
        self.name.as_str()
    }

    /// The name as a string of its own.
    pub fn to_text(&self) -> (name: String)
        ensures
            name@ == self@,
    {
        self.name.clone()
    }

    /// Whether this is the name `name`.
    pub fn is(&self, name: &str) -> (answer: bool)
        ensures
            answer == (self@ == name@),
    {
        same_text(self.name.as_str(), name)
    }
}

impl FieldId {
    /// Whether two names are the same.
    pub fn same(&self, other: &FieldId) -> (answer: bool)
        ensures
            answer == (self@ == other@),
    {
        self.name == other.name
    }
}

impl Clone for FieldId {
    fn clone(&self) -> (copy: Self)
        ensures
            copy == *self,
    {
        FieldId { name: self.name.clone() }
    }
}

/// What a bake may do with a field.
#[derive(Clone, Copy, Debug, PartialEq, Eq, Structural)]
pub enum FieldRole {
    /// Nothing in particular. Any number of fields may hold this.
    Custom,
    /// The ground. At most one field, at one texel per cell.
    Height,
    /// How much water each cell contributes. At most one field.
    Moisture,
}

impl FieldRole {
    /// The role as a message names it.
    pub open spec fn shown(self) -> Seq<char> {
        match self {
            FieldRole::Custom => "custom"@,
            FieldRole::Height => "height"@,
            FieldRole::Moisture => "moisture"@,
        }
    }

    /// The role as a message names it.
    pub fn as_str(self) -> (name: &'static str)
        ensures
            name@ == self.shown(),
    {
        match self {
            FieldRole::Custom => "custom",
            FieldRole::Height => "height",
            FieldRole::Moisture => "moisture",
        }
    }
}

} // verus!
