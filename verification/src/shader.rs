//! A layer whose values a shader produces.
//!
//! This is the document's half of it: the file, the parameter values, what the file reads,
//! and the raster the last dispatch left.

use vstd::prelude::*;
use crate::layout::named_from;
use crate::names::FieldId;
use crate::params::{ParamField, ParamsLayout};
use crate::raster::{Raster, UVec2};
use crate::single::Single;
use crate::values::Values;

verus! {

/// The directory, inside a terrain, that a document's shaders live in.
pub const SHADER_DIR: &'static str = "shaders";

/// A layer whose values a shader produces.
///
/// Holds what a document carries, the file and the parameter values, and the raster the
/// last dispatch left. The raster is derived, so a loaded document reads the layer as zero
/// until it has been resolved.
#[derive(Debug)]
pub struct ShaderLayer {
    /// The file, as a plain name inside the document's `shaders` directory. Never a path.
    pub file: String,
    /// A value per parameter the shader declares, keyed by the name the struct spells. A
    /// key the shader no longer declares is dropped when the file is parsed; one it
    /// declares that is missing here takes the shader's default.
    pub params: Values,
    /// The inputs the file declares, in declaration order: one pin each.
    pub inputs: Vec<String>,
    /// The fields the file reads by name, in declaration order, duplicates kept.
    pub layers: Vec<FieldId>,
    /// The values from the last dispatch.
    pub values: Raster<Single>,
    /// What the last dispatch was made from, where the values came from one.
    pub stamp: Option<u64>,
}

/// What is left of some values under a layout: a value for each parameter it declares, the
/// one there was or else the default.
pub open spec fn reconciled(
    values: Map<Seq<char>, Seq<Single>>,
    fields: Seq<ParamField<Single>>,
) -> Map<Seq<char>, Seq<Single>> {
    Map::new(
        |name: Seq<char>| named_from(fields, name, 0) is Some,
        |name: Seq<char>|
            if values.dom().contains(name) {
                values[name]
            } else {
                fields[named_from(fields, name, 0)->0].default@
            },
    )
}

/// A copy of a row of numbers.
pub fn copy_row(row: &Vec<Single>) -> (copy: Vec<Single>)
    ensures
        copy@ == row@,
{
    let mut copy: Vec<Single> = Vec::new();
    let mut i: usize = 0;
    while i < row.len()
        invariant
            i <= row@.len(),
            copy@ == row@.take(i as int),
        decreases row@.len() - i,
    {
        proof {
            assert(row@.take(i + 1) =~= row@.take(i as int).push(row@[i as int]));
        }
        copy.push(row[i]);
        i = i + 1;
    }
    proof {
        assert(row@.take(i as int) =~= row@);
    }
    copy
}

/// A parameter found by name has that name and stands at or after where the search began.
pub proof fn lemma_named<N>(fields: Seq<ParamField<N>>, name: Seq<char>, from: int)
    requires
        0 <= from,
    ensures
        named_from(fields, name, from) matches Some(i) ==> from <= i < fields.len()
            && fields[i].name@ == name && forall|j: int|
            from <= j < i ==> (#[trigger] fields[j]).name@ != name,
        named_from(fields, name, from) is None ==> forall|j: int|
            from <= j < fields.len() ==> (#[trigger] fields[j]).name@ != name,
    decreases fields.len() - from,
{
    if from < fields.len() && fields[from].name@ != name {
        lemma_named(fields, name, from + 1);
    }
}

impl ShaderLayer {
    /// A layer naming `file` with no parameter values, so every parameter the shader
    /// declares takes its default until the file has been parsed.
    pub fn new(file: &str) -> (layer: ShaderLayer)
        ensures
            layer.file@ == file@,
            layer.params.wf(),
            layer.params@ == Map::<Seq<char>, Seq<Single>>::empty(),
            layer.inputs@.len() == 0,
            layer.layers@.len() == 0,
            layer.values.wf(),
            layer.values.size == (UVec2 { x: 0, y: 0 }),
            layer.stamp is None,
    {
        ShaderLayer {
            file: String::from_str(file),
            params: Values::new(),
            inputs: Vec::new(),
            layers: Vec::new(),
            values: Raster::empty(),
            stamp: None,
        }
    }

    /// The values from the last dispatch. Empty for a layer that has never been resolved
    /// or that came from a loaded document, which reads as zero.
    pub fn values(&self) -> (values: &Raster<Single>)
        ensures
            *values == self.values,
    {
        &self.values
    }

    /// What the last dispatch was made from, or `None` where the values did not come from
    /// one.
    pub fn stamp(&self) -> (stamp: Option<u64>)
        ensures
            stamp == self.stamp,
    {
        self.stamp
    }

    /// Installs `values`, dropping whatever was there. They are not a dispatch's, so no
    /// dispatch is skipped on their account. Nothing checks them against the layer's
    /// resolution.
    pub fn put_values(&mut self, values: Raster<Single>)
        ensures
            *final(self) == (ShaderLayer { values, stamp: None, ..*old(self) }),
    {
        self.values = values;
        self.stamp = None;
    }

    /// Installs `values` as the result of a dispatch made from what `key` stands for.
    pub fn put_dispatch(&mut self, values: Raster<Single>, key: u64)
        ensures
            *final(self) == (ShaderLayer { values, stamp: Some(key), ..*old(self) }),
    {
        self.values = values;
        self.stamp = Some(key);
    }

    /// Drops the values, leaving the layer reading as zero until it is resolved again.
    /// What a failed parse must not do: a broken shader keeps what it last produced.
    pub fn clear(&mut self)
        ensures
            final(self).values.wf(),
            final(self).values.size == (UVec2 { x: 0, y: 0 }),
            final(self).values.data@.len() == 0,
            *final(self) == (ShaderLayer {
                values: final(self).values,
                stamp: None,
                ..*old(self)
            }),
    {
        self.values = Raster::empty();
        self.stamp = None;
    }

    /// Drops every value the layout does not declare and fills in every default it
    /// declares that is missing, which is what a shader edited under a document leaves
    /// behind.
    pub fn reconcile(&mut self, layout: &ParamsLayout<Single>)
        requires
            old(self).params.wf(),
        ensures
            final(self).params.wf(),
            final(self).params@ == reconciled(old(self).params@, layout.fields@),
            *final(self) == (ShaderLayer { params: final(self).params, ..*old(self) }),
    {
        let ghost fields = layout.fields@;
        let ghost before = self.params@;
        let mut i: usize = 0;
        while i < self.params.len()
            invariant
                self.params.wf(),
                fields == layout.fields@,
                before == old(self).params@,
                *self == (ShaderLayer { params: self.params, ..*old(self) }),
                i <= self.params.names().len(),
                forall|j: int|
                    0 <= j < i ==> named_from(fields, #[trigger] self.params.names()[j], 0) is Some,
                forall|name: Seq<char>|
                    #[trigger] self.params@.dom().contains(name) ==> before.dom().contains(name)
                        && self.params@[name] == before[name],
                forall|name: Seq<char>|
                    before.dom().contains(name) && named_from(fields, name, 0) is Some
                        ==> #[trigger] self.params@.dom().contains(name),
            decreases self.params.names().len() - i,
        {
            let keep: bool = match self.params.name_at(i) {
                Some(name) => layout.field(name).is_some(),
                None => true,
            };
            if keep {
                i = i + 1;
            } else {
                let ghost names = self.params.names();
                proof {
                    self.params.lemma_at(i as int);
                }
                self.params.remove_at(i);
                proof {
                    assert forall|j: int| 0 <= j < i implies named_from(
                        fields,
                        #[trigger] self.params.names()[j],
                        0,
                    ) is Some by {
                        assert(self.params.names()[j] == names[j]);
                    }
                }
            }
        }
        proof {
            assert forall|name: Seq<char>|
                self.params@.dom().contains(name) implies named_from(fields, name, 0) is Some by {
                let j = self.params.names().index_of(name);
                assert(self.params.names()[j] == name);
            }
        }
        let mut k: usize = 0;
        while k < layout.fields.len()
            invariant
                k <= fields.len(),
                fields == layout.fields@,
                before == old(self).params@,
                self.params.wf(),
                *self == (ShaderLayer { params: self.params, ..*old(self) }),
                forall|name: Seq<char>|
                    #[trigger] self.params@.dom().contains(name) ==> named_from(fields, name, 0)
                        is Some && self.params@[name] == reconciled(before, fields)[name],
                forall|name: Seq<char>|
                    before.dom().contains(name) && named_from(fields, name, 0) is Some
                        ==> #[trigger] self.params@.dom().contains(name),
                forall|j: int|
                    0 <= j < k ==> self.params@.dom().contains((#[trigger] fields[j]).name@),
            decreases fields.len() - k,
        {
            let field: &ParamField<Single> = &layout.fields[k];
            if !self.params.contains_key(field.name.as_str()) {
                proof {
                    lemma_named(fields, field.name@, 0);
                }
                self.params.insert(field.name.clone(), copy_row(&field.default));
            }
            k = k + 1;
        }
        proof {
            let goal = reconciled(before, fields);
            assert forall|name: Seq<char>|
                self.params@.dom().contains(name) <==> goal.dom().contains(name) by {
                lemma_named(fields, name, 0);
                if goal.dom().contains(name) {
                    let j = named_from(fields, name, 0)->0;
                    assert(self.params@.dom().contains(fields[j].name@));
                }
            }
            assert(self.params@ =~= goal);
        }
    }
}

/// Reconciling a second time changes nothing.
pub proof fn law_reconciling_settles(
    values: Map<Seq<char>, Seq<Single>>,
    fields: Seq<ParamField<Single>>,
)
    ensures
        reconciled(reconciled(values, fields), fields) == reconciled(values, fields),
{
    assert(reconciled(reconciled(values, fields), fields) =~= reconciled(values, fields));
}

/// Reconciling keeps the value of every parameter the shader still declares, drops every
/// other, and leaves no declared parameter without one.
pub proof fn law_reconciling_keeps_what_is_declared(
    values: Map<Seq<char>, Seq<Single>>,
    fields: Seq<ParamField<Single>>,
    name: Seq<char>,
)
    ensures
        reconciled(values, fields).dom().contains(name) <==> exists|i: int|
            0 <= i < fields.len() && (#[trigger] fields[i]).name@ == name,
        reconciled(values, fields).dom().contains(name) && values.dom().contains(name)
            ==> reconciled(values, fields)[name] == values[name],
{
    lemma_named(fields, name, 0);
    if named_from(fields, name, 0) is Some {
        assert(fields[named_from(fields, name, 0)->0].name@ == name);
    }
}

/// A parameter that is declared and has no value gets the default it is declared with.
pub proof fn law_a_new_parameter_takes_its_default(
    values: Map<Seq<char>, Seq<Single>>,
    fields: Seq<ParamField<Single>>,
    index: int,
)
    requires
        0 <= index < fields.len(),
        forall|i: int| 0 <= i < index ==> (#[trigger] fields[i]).name@ != fields[index].name@,
        !values.dom().contains(fields[index].name@),
    ensures
        reconciled(values, fields).dom().contains(fields[index].name@),
        reconciled(values, fields)[fields[index].name@] == fields[index].default@,
{
    let name = fields[index].name@;
    lemma_named(fields, name, 0);
    let at = named_from(fields, name, 0);
    assert(at is Some) by {
        if at is None {
            assert(fields[index].name@ != name);
        }
    }
    lemma_first_named(fields, name, 0, index);
}

proof fn lemma_first_named(
    fields: Seq<ParamField<Single>>,
    name: Seq<char>,
    from: int,
    index: int,
)
    requires
        0 <= from <= index < fields.len(),
        fields[index].name@ == name,
        forall|i: int| from <= i < index ==> (#[trigger] fields[i]).name@ != name,
    ensures
        named_from(fields, name, from) == Some(index),
    decreases index - from,
{
    if from < index {
        assert(fields[from].name@ != name);
        lemma_first_named(fields, name, from + 1, index);
    }
}

} // verus!
