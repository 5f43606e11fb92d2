//! The panel beside the map: what it is built from, and the rows of a shader's parameters.
//!
//! A choice is shape and a number is a value: choosing a role or a mode changes which widgets
//! exist, so the panel is thrown away and rebuilt; typing a number changes only what a widget
//! holds, so the panel stands and the value is pushed into it.

use vstd::prelude::*;
use crate::layer::{texts_view, Layer};
use crate::layout::same_text;
use crate::names::FieldRole;
use crate::params::{ParamField, ParamsLayout, Widget};
use crate::shader::ShaderLayer;
use crate::single::Single;
use crate::text::{decimal, decimal_of};
use crate::values::Values;

verus! {

/// Some texts, a comma between each and the next.
pub open spec fn listed(names: Seq<Seq<char>>) -> Seq<char>
    decreases names.len(),
{
    if names.len() == 0 {
        Seq::empty()
    } else if names.len() == 1 {
        names[0]
    } else {
        listed(names.drop_last()) + ","@ + names.last()
    }
}

/// What the captions of a layer's own properties print.
pub struct LayerShape {
    /// The role.
    pub role: FieldRole,
    /// The shift.
    pub shift: u8,
    /// The ends of the range as they are printed, the low end first.
    pub range: (Seq<char>, Seq<char>),
    /// Whether the layer holds classes.
    pub categorical: bool,
    /// Whether it is hillshaded.
    pub hillshade: bool,
    /// Whether it has contours.
    pub contours: bool,
}

/// A yes or a no.
pub open spec fn said(yes: bool) -> Seq<char> {
    if yes {
        "true"@
    } else {
        "false"@
    }
}

/// The part of the key that the document and the panel give.
pub open spec fn outer_key(
    active: Seq<char>,
    names: Seq<Seq<char>>,
    reference: bool,
    path: Seq<char>,
    readers: Seq<Seq<char>>,
) -> Seq<char> {
    active + "|"@ + listed(names) + "|"@ + (if reference {
        "ref"@
    } else {
        "noref"@
    }) + "|"@ + path + "|"@ + listed(readers) + "|"@
}

/// The part of the key that the layer gives.
pub open spec fn layer_key(layer: LayerShape) -> Seq<char> {
    layer.role.shown() + "|shift:"@ + decimal(layer.shift as nat) + "|range:"@ + layer.range.0
        + ".."@ + layer.range.1 + "|categorical:"@ + said(layer.categorical) + "|hillshade:"@
        + said(layer.hillshade) + "|contours:"@ + said(layer.contours) + "|"@
}

/// The part of the key that the parameters of a shader give.
pub open spec fn params_key(fields: Seq<ParamField<Single>>) -> Seq<char>
    decreases fields.len(),
{
    if fields.len() == 0 {
        Seq::empty()
    } else {
        params_key(fields.drop_last()) + ":"@ + fields.last().group@ + "/"@ + fields.last().label@
    }
}

/// The part of the key that the shader's file gives: what it declares and whether it is read
/// without a fault, or that it is not there.
pub open spec fn file_key(fields: Option<Seq<ParamField<Single>>>, broken: bool) -> Seq<char> {
    match fields {
        Some(fields) => params_key(fields) + (if broken {
            ":broken"@
        } else {
            ":good"@
        }),
        None => ":missing"@,
    }
}

fn append_list(text: &mut String, names: &Vec<String>)
    ensures
        final(text)@ == old(text)@ + listed(texts_view(names@)),
{
    let ghost before = text@;
    let ghost list = texts_view(names@);
    let mut i: usize = 0;
    proof {
        assert(list.take(0) =~= Seq::<Seq<char>>::empty());
        assert(before + listed(list.take(0)) =~= before);
    }
    while i < names.len()
        invariant
            i <= names@.len(),
            list == texts_view(names@),
            text@ == before + listed(list.take(i as int)),
        decreases names@.len() - i,
    {
        proof {
            assert(list.take(i + 1).drop_last() =~= list.take(i as int));
            assert(list.take(i + 1).last() == names@[i as int]@);
        }
        let ghost now = text@;
        if i > 0 {
            text.append(",");
        }
        text.append(names[i].as_str());
        proof {
            if i == 0 {
                assert(list.take(1)[0] == names@[0]@);
                assert(text@ =~= before + listed(list.take(1)));
            } else {
                assert(text@ =~= before + listed(list.take(i + 1)));
            }
        }
        i = i + 1;
    }
    proof {
        assert(list.take(i as int) =~= list);
    }
}

fn yes_no(yes: bool) -> (text: &'static str)
    ensures
        text@ == said(yes),
{
    if yes {
        "true"
    } else {
        "false"
    }
}

/// What the panel is built from, as far as a layer is shown.
#[derive(Debug)]
pub struct Open<'a> {
    /// The layer.
    pub layer: &'a Layer,
    /// The low end of [`Layer::bounds`] in decimals, as a caption prints it.
    pub low: &'a str,
    /// The high end.
    pub high: &'a str,
    /// What its file declares, where the file is there.
    pub layout: Option<&'a ParamsLayout<Single>>,
    /// Whether the file was last read with a fault.
    pub broken: bool,
}

/// What the captions of a layer's own properties print.
pub open spec fn shape_of(layer: Layer, low: Seq<char>, high: Seq<char>) -> LayerShape {
    LayerShape {
        role: layer.role,
        shift: layer.shift,
        range: (low, high),
        categorical: layer.categorical,
        hillshade: layer.hillshade,
        contours: layer.contours,
    }
}

fn outer_text(
    active: &str,
    names: &Vec<String>,
    reference: bool,
    path: &str,
    readers: &Vec<String>,
) -> (key: String)
    ensures
        key@ == outer_key(
            active@,
            texts_view(names@),
            reference,
            path@,
            texts_view(readers@),
        ),
{
    let mut key: String = String::from_str(active);
    key.append("|");
    append_list(&mut key, names);
    key.append("|");
    key.append(
        if reference {
            "ref"
        } else {
            "noref"
        },
    );
    key.append("|");
    key.append(path);
    key.append("|");
    append_list(&mut key, readers);
    key.append("|");
    key
}

fn layer_text(layer: &Layer, low: &str, high: &str) -> (key: String)
    ensures
        key@ == layer_key(shape_of(*layer, low@, high@)),
{
    let mut key: String = String::from_str(layer.role.as_str());
    key.append("|shift:");
    key.append(decimal_of(layer.shift as u128).as_str());
    key.append("|range:");
    key.append(low);
    key.append("..");
    key.append(high);
    key.append("|categorical:");
    key.append(yes_no(layer.categorical));
    key.append("|hillshade:");
    key.append(yes_no(layer.hillshade));
    key.append("|contours:");
    key.append(yes_no(layer.contours));
    key.append("|");
    key
}

fn file_text(layout: Option<&ParamsLayout<Single>>, broken: bool) -> (key: String)
    ensures
        key@ == file_key(
            match layout {
                Some(layout) => Some(layout.fields@),
                None => None,
            },
            broken,
        ),
{
    let layout: &ParamsLayout<Single> = match layout {
        Some(layout) => layout,
        None => {
            return String::from_str(":missing");
        },
    };
    let ghost fields = layout.fields@;
    let mut key: String = String::new();
    let mut i: usize = 0;
    proof {
        assert(fields.take(0) =~= Seq::<ParamField<Single>>::empty());
        assert(key@ =~= Seq::<char>::empty());
    }
    while i < layout.fields.len()
        invariant
            i <= fields.len(),
            fields == layout.fields@,
            key@ == params_key(fields.take(i as int)),
        decreases fields.len() - i,
    {
        proof {
            assert(fields.take(i + 1).drop_last() =~= fields.take(i as int));
        }
        key.append(":");
        key.append(layout.fields[i].group.as_str());
        key.append("/");
        key.append(layout.fields[i].label.as_str());
        i = i + 1;
    }
    proof {
        assert(fields.take(i as int) =~= fields);
    }
    key.append(
        if broken {
            ":broken"
        } else {
            ":good"
        },
    );
    key
}

/// The key of what the panel is built from: everything a caption prints and everything that
/// decides how many widgets there are, and nothing a number field holds.
pub fn fingerprint(
    active: &str,
    names: &Vec<String>,
    reference: bool,
    path: &str,
    readers: &Vec<String>,
    open: Option<Open>,
) -> (key: String)
    ensures
        key@ == outer_key(
            active@,
            texts_view(names@),
            reference,
            path@,
            texts_view(readers@),
        ) + (match open {
            Some(open) => layer_key(shape_of(*open.layer, open.low@, open.high@)) + file_key(
                match open.layout {
                    Some(layout) => Some(layout.fields@),
                    None => None,
                },
                open.broken,
            ),
            None => "empty"@,
        }),
{
    let mut key: String = outer_text(active, names, reference, path, readers);
    match open {
        Some(open) => {
            let mut inner: String = layer_text(open.layer, open.low, open.high);
            inner.append(file_text(open.layout, open.broken).as_str());
            key.append(inner.as_str());
        },
        None => {
            key.append("empty");
        },
    }
    key
}

/// Two texts that differ at a place they both have are different.
proof fn lemma_differ(a: Seq<char>, b: Seq<char>, at: int)
    requires
        0 <= at < a.len(),
        at < b.len(),
        a[at] != b[at],
    ensures
        a != b,
{
}

/// Choosing another role changes the key, whatever else stands around it.
pub proof fn law_a_role_is_part_of_the_shape(
    outer: Seq<char>,
    layer: LayerShape,
    other: FieldRole,
    file: Seq<char>,
)
    requires
        layer.role != other,
    ensures
        outer + (layer_key(layer) + file) != outer + (layer_key(
            LayerShape { role: other, ..layer },
        ) + file),
{
    reveal_strlit("custom");
    reveal_strlit("height");
    reveal_strlit("moisture");
    let a = outer + (layer_key(layer) + file);
    let b = outer + (layer_key(LayerShape { role: other, ..layer }) + file);
    let at = outer.len() as int;
    assert(a[at] == layer.role.shown()[0]);
    assert(b[at] == other.shown()[0]);
    lemma_differ(a, b, at);
}

/// Turning the hillshade or the contours on or off changes the key.
pub proof fn law_a_toggle_is_part_of_the_shape(
    outer: Seq<char>,
    layer: LayerShape,
    file: Seq<char>,
)
    ensures
        outer + (layer_key(layer) + file) != outer + (layer_key(
            LayerShape { hillshade: !layer.hillshade, ..layer },
        ) + file),
        outer + (layer_key(layer) + file) != outer + (layer_key(
            LayerShape { contours: !layer.contours, ..layer },
        ) + file),
{
    reveal_strlit("true");
    reveal_strlit("false");
    let before = layer.role.shown() + "|shift:"@ + decimal(layer.shift as nat) + "|range:"@
        + layer.range.0 + ".."@ + layer.range.1
        + "|categorical:"@ + said(layer.categorical) + "|hillshade:"@;
    let shaded = LayerShape { hillshade: !layer.hillshade, ..layer };
    let a = outer + (layer_key(layer) + file);
    let b = outer + (layer_key(shaded) + file);
    let at: int = (outer.len() + before.len()) as int;
    assert(layer_key(layer) =~= before + (said(layer.hillshade) + "|contours:"@ + said(
        layer.contours,
    ) + "|"@));
    assert(layer_key(shaded) =~= before + (said(shaded.hillshade) + "|contours:"@ + said(
        layer.contours,
    ) + "|"@));
    assert(a[at] == said(layer.hillshade)[0]);
    assert(b[at] == said(shaded.hillshade)[0]);
    lemma_differ(a, b, at);
    let lined = LayerShape { contours: !layer.contours, ..layer };
    let c = outer + (layer_key(lined) + file);
    let further = before + said(layer.hillshade) + "|contours:"@;
    let to: int = (outer.len() + further.len()) as int;
    assert(layer_key(layer) =~= further + (said(layer.contours) + "|"@));
    assert(layer_key(lined) =~= further + (said(lined.contours) + "|"@));
    assert(a[to] == said(layer.contours)[0]);
    assert(c[to] == said(lined.contours)[0]);
    lemma_differ(a, c, to);
}

/// Opening the reference changes the key.
pub proof fn law_the_reference_is_part_of_the_shape(
    active: Seq<char>,
    names: Seq<Seq<char>>,
    path: Seq<char>,
    readers: Seq<Seq<char>>,
    rest: Seq<char>,
)
    ensures
        outer_key(active, names, true, path, readers) + rest != outer_key(
            active,
            names,
            false,
            path,
            readers,
        ) + rest,
{
    reveal_strlit("ref");
    reveal_strlit("noref");
    let before = active + "|"@ + listed(names) + "|"@;
    let a = outer_key(active, names, true, path, readers) + rest;
    let b = outer_key(active, names, false, path, readers) + rest;
    let at = before.len() as int;
    assert(outer_key(active, names, true, path, readers) =~= before + ("ref"@ + "|"@ + path + "|"@
        + listed(readers) + "|"@));
    assert(outer_key(active, names, false, path, readers) =~= before + ("noref"@ + "|"@ + path
        + "|"@ + listed(readers) + "|"@));
    assert(a[at] == "ref"@[0]);
    assert(b[at] == "noref"@[0]);
    lemma_differ(a, b, at);
}

/// What the panel was last built from, and which rebuild that was.
#[derive(Debug)]
pub struct Shape {
    /// The key.
    pub key: String,
    /// How many times the panel has been built.
    pub generation: u64,
}

impl Shape {
    /// Nothing has been built.
    pub fn new() -> (shape: Shape)
        ensures
            shape.key@.len() == 0,
            shape.generation == 0,
    {
        Shape { key: String::new(), generation: 0 }
    }

    /// Whether the panel has to be built again for a key, noting that it has been.
    pub fn rebuild(&mut self, key: String) -> (answer: bool)
        requires
            old(self).generation < u64::MAX,
        ensures
            answer == (old(self).key@ != key@),
            final(self).key@ == key@,
            final(self).generation == old(self).generation + (if answer {
                1int
            } else {
                0
            }),
    {
        if same_text(self.key.as_str(), key.as_str()) {
            return false;
        }
        self.key = key;
        self.generation = self.generation + 1;
        true
    }

    /// Whether a child of the panel is left over from an earlier rebuild.
    pub fn is_left_over(&self, entry: u64) -> (answer: bool)
        ensures
            answer == (entry != self.generation),
    {
        entry != self.generation
    }
}

/// A row of the panel of a shader.
#[derive(Debug)]
pub enum PanelRow {
    /// The caption of a group.
    Group(String),
    /// A number: what it is called, which parameter it is by its position in key order, and
    /// which component of it.
    Number {
        /// What it is called.
        caption: String,
        /// Which parameter.
        param: usize,
        /// Which component.
        component: usize,
    },
}

/// What a [`PanelRow`] says.
pub enum PanelRowView {
    /// The caption of a group.
    Group(Seq<char>),
    /// A number.
    Number {
        /// What it is called.
        caption: Seq<char>,
        /// Which parameter.
        param: int,
        /// Which component.
        component: int,
    },
}

impl View for PanelRow {
    type V = PanelRowView;

    open spec fn view(&self) -> PanelRowView {
        match self {
            PanelRow::Group(caption) => PanelRowView::Group(caption@),
            PanelRow::Number { caption, param, component } => PanelRowView::Number {
                caption: caption@,
                param: *param as int,
                component: *component as int,
            },
        }
    }
}

/// What a list of rows says.
pub open spec fn rows_view(rows: Seq<PanelRow>) -> Seq<PanelRowView> {
    rows.map_values(|row: PanelRow| row@)
}

/// The letter of a component.
pub open spec fn letter(component: int) -> Seq<char> {
    if component == 0 {
        "x"@
    } else if component == 1 {
        "y"@
    } else if component == 2 {
        "z"@
    } else {
        "w"@
    }
}

/// What a component is called: the label alone where there is one, else the label and a
/// letter.
pub open spec fn component_caption(label: Seq<char>, count: int, component: int) -> Seq<char> {
    if count == 1 {
        label
    } else {
        label + " "@ + letter(component)
    }
}

/// The rows of the first `upto` components of a parameter.
pub open spec fn component_rows(field: ParamField<Single>, param: int, upto: int) -> Seq<
    PanelRowView,
>
    decreases upto,
{
    if upto <= 0 {
        Seq::empty()
    } else {
        component_rows(field, param, upto - 1).push(
            PanelRowView::Number {
                caption: component_caption(
                    field.label@,
                    field.ty.count() as int,
                    upto - 1,
                ),
                param,
                component: upto - 1,
            },
        )
    }
}

/// The group in force after some parameters, hidden ones passed over.
pub open spec fn group_after(fields: Seq<ParamField<Single>>) -> Seq<char>
    decreases fields.len(),
{
    if fields.len() == 0 {
        Seq::empty()
    } else if fields.last().widget is Hidden {
        group_after(fields.drop_last())
    } else {
        fields.last().group@
    }
}

/// The rows of some parameters: a caption where a group begins, and a number for each component
/// of each parameter that is not hidden and has a value.
pub open spec fn panel_rows(fields: Seq<ParamField<Single>>, names: Seq<Seq<char>>) -> Seq<
    PanelRowView,
>
    decreases fields.len(),
{
    if fields.len() == 0 {
        Seq::empty()
    } else {
        let rest = panel_rows(fields.drop_last(), names);
        let field = fields.last();
        if field.widget is Hidden {
            rest
        } else {
            let headed = if field.group@ != group_after(fields.drop_last()) && field.group@.len()
                != 0 {
                rest.push(PanelRowView::Group(field.group@))
            } else {
                rest
            };
            if names.contains(field.name@) {
                headed + component_rows(
                    field,
                    names.index_of(field.name@),
                    field.ty.count() as int,
                )
            } else {
                headed
            }
        }
    }
}

fn place_of_name(values: &Values, name: &str) -> (answer: Option<usize>)
    requires
        values.wf(),
    ensures
        match answer {
            Some(place) => values.names().contains(name@) && place == values.names().index_of(
                name@,
            ),
            None => !values.names().contains(name@),
        },
{
    proof {
        values.lemma_wf();
    }
    let mut i: usize = 0;
    while i < values.len()
        invariant
            i <= values.names().len(),
            values.names().no_duplicates(),
            forall|j: int| 0 <= j < i ==> values.names()[j] != name@,
        decreases values.names().len() - i,
    {
        if let Some(found) = values.name_at(i) {
            if same_text(found, name) {
                proof {
                    assert(values.names()[i as int] == name@);
                    let k = values.names().index_of(name@);
                    assert(values.names()[k] == name@);
                    if k != i {
                        assert(values.names()[k] != values.names()[i as int]);
                    }
                }
                return Some(i);
            }
        }
        i = i + 1;
    }
    None
}

fn caption_of(label: &str, count: usize, component: usize) -> (text: String)
    ensures
        text@ == component_caption(label@, count as int, component as int),
{
    let mut text: String = String::from_str(label);
    if count != 1 {
        text.append(" ");
        text.append(
            if component == 0 {
                "x"
            } else if component == 1 {
                "y"
            } else if component == 2 {
                "z"
            } else {
                "w"
            },
        );
    }
    text
}

/// The rows of a shader's parameters, in declaration order.
pub fn param_rows(shader: &ShaderLayer, layout: &ParamsLayout<Single>) -> (rows: Vec<PanelRow>)
    requires
        shader.params.wf(),
    ensures
        rows_view(rows@) == panel_rows(layout.fields@, shader.params.names()),
{
    let ghost fields = layout.fields@;
    let ghost names = shader.params.names();
    let mut rows: Vec<PanelRow> = Vec::new();
    let mut group: String = String::new();
    let mut i: usize = 0;
    proof {
        assert(fields.take(0) =~= Seq::<ParamField<Single>>::empty());
        assert(rows_view(rows@) =~= Seq::<PanelRowView>::empty());
        assert(group@ =~= Seq::<char>::empty());
    }
    while i < layout.fields.len()
        invariant
            i <= fields.len(),
            fields == layout.fields@,
            names == shader.params.names(),
            shader.params.wf(),
            group@ == group_after(fields.take(i as int)),
            rows_view(rows@) == panel_rows(fields.take(i as int), names),
        decreases fields.len() - i,
    {
        let field: &ParamField<Single> = &layout.fields[i];
        proof {
            assert(fields.take(i + 1).drop_last() =~= fields.take(i as int));
            assert(fields.take(i + 1).last() == fields[i as int]);
        }
        let hidden: bool = match &field.widget {
            Widget::Hidden => true,
            _ => false,
        };
        if !hidden {
            let ghost start = rows@;
            if !same_text(field.group.as_str(), group.as_str()) {
                group = field.group.clone();
                if !same_text(group.as_str(), "") {
                    rows.push(PanelRow::Group(group.clone()));
                    proof {
                        assert(rows_view(rows@) =~= rows_view(start).push(
                            PanelRowView::Group(field.group@),
                        ));
                    }
                }
            }
            proof {
                reveal_strlit("");
                assert(field.group@.len() == 0 <==> field.group@ =~= ""@);
            }
            let ghost headed = rows_view(rows@);
            if let Some(param) = place_of_name(&shader.params, field.name.as_str()) {
                let count: usize = field.ty.components();
                let mut component: usize = 0;
                proof {
                    assert(headed + component_rows(*field, param as int, 0) =~= headed);
                }
                while component < count
                    invariant
                        component <= count,
                        count == field.ty.count(),
                        rows_view(rows@) == headed + component_rows(
                            *field,
                            param as int,
                            component as int,
                        ),
                    decreases count - component,
                {
                    let ghost before = rows@;
                    let row: PanelRow = PanelRow::Number {
                        caption: caption_of(field.label.as_str(), count, component),
                        param,
                        component,
                    };
                    let ghost shown = row@;
                    rows.push(row);
                    proof {
                        assert(rows_view(rows@) =~= rows_view(before).push(shown));
                        assert(rows_view(rows@) =~= headed + component_rows(
                            *field,
                            param as int,
                            component + 1,
                        ));
                    }
                    component = component + 1;
                }
            }
        }
        i = i + 1;
    }
    proof {
        assert(fields.take(i as int) =~= fields);
    }
    rows
}

} // verus!
