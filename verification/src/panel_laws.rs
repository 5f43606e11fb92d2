//! What is part of the panel's shape and what is not.

use vstd::prelude::*;
use crate::layer::Layer;
use crate::panel::{layer_key, listed, outer_key, said, shape_of, LayerShape};
use crate::raster::Raster;
use crate::shader::ShaderLayer;
use crate::single::Single;
use crate::text::{decimal, digit};

verus! {

/// Two texts that agree around different middles are different.
proof fn lemma_middle(before: Seq<char>, a: Seq<char>, b: Seq<char>, after: Seq<char>)
    requires
        a != b,
    ensures
        before + a + after != before + b + after,
{
    let one = before + a + after;
    let two = before + b + after;
    if one == two {
        assert(one.len() == two.len());
        assert(a.len() == b.len());
        assert forall|i: int| 0 <= i < a.len() implies a[i] == b[i] by {
            assert(one[before.len() + i] == a[i]);
            assert(two[before.len() + i] == b[i]);
        }
        assert(a =~= b);
    }
}

/// Numbers written alike are the same number.
proof fn lemma_decimal(a: nat, b: nat)
    requires
        decimal(a) == decimal(b),
    ensures
        a == b,
    decreases a,
{
    assert(decimal(a).last() == decimal(b).last());
    assert(decimal(a).last() == digit(a % 10));
    assert(decimal(b).last() == digit(b % 10));
    assert(a % 10 == b % 10);
    assert(decimal(a).drop_last() == decimal(b).drop_last());
    if a < 10 {
        if b >= 10 {
            assert(decimal(b).drop_last() =~= decimal(b / 10));
            assert(decimal(b / 10).len() > 0) by {
                lemma_decimal_has_digits(b / 10);
            }
            assert(decimal(a).len() == 1);
            assert(decimal(b).len() > 1);
        }
    } else if b < 10 {
        assert(decimal(a).drop_last() =~= decimal(a / 10));
        assert(decimal(a / 10).len() > 0) by {
            lemma_decimal_has_digits(a / 10);
        }
        assert(decimal(b).len() == 1);
        assert(decimal(a).len() > 1);
    } else {
        assert(decimal(a).drop_last() =~= decimal(a / 10));
        assert(decimal(b).drop_last() =~= decimal(b / 10));
        lemma_decimal(a / 10, b / 10);
    }
}

proof fn lemma_decimal_has_digits(a: nat)
    ensures
        decimal(a).len() > 0,
{
}

/// Whether each of some names has a character and none has a comma.
pub open spec fn plain_names(names: Seq<Seq<char>>) -> bool {
    forall|i: int|
        0 <= i < names.len() ==> (#[trigger] names[i]).len() > 0 && !names[i].contains(',')
}

/// Names listed alike are the same names.
proof fn lemma_listed(a: Seq<Seq<char>>, b: Seq<Seq<char>>)
    requires
        plain_names(a),
        plain_names(b),
        listed(a) == listed(b),
    ensures
        a == b,
    decreases a.len(),
{
    reveal_strlit(",");
    let text = listed(a);
    if a.len() == 0 || b.len() == 0 {
        if a.len() > 0 {
            lemma_listed_ends(a);
        }
        if b.len() > 0 {
            lemma_listed_ends(b);
        }
        assert(a =~= b);
    } else {
        lemma_listed_ends(a);
        lemma_listed_ends(b);
        lemma_same_end(a, b);
        lemma_same_end(b, a);
        let last = a.last();
        assert(last =~= b.last()) by {
            assert forall|i: int| 0 <= i < last.len() implies last[i] == b.last()[i] by {
                assert(text[text.len() - last.len() + i] == last[i]);
            }
        }
        let fore = a.drop_last();
        let other = b.drop_last();
        if a.len() > 1 && b.len() > 1 {
            assert forall|i: int| 0 <= i < listed(fore).len() implies listed(fore)[i] == listed(
                other,
            )[i] by {
                assert(text[i] == listed(fore)[i]);
                assert(text[i] == listed(other)[i]);
            }
            assert(listed(fore) =~= listed(other));
            assert(plain_names(fore)) by {
                assert forall|i: int| 0 <= i < fore.len() implies (#[trigger] fore[i]).len() > 0
                    && !fore[i].contains(',') by {
                    assert(fore[i] == a[i]);
                }
            }
            assert(plain_names(other)) by {
                assert forall|i: int| 0 <= i < other.len() implies (#[trigger] other[i]).len() > 0
                    && !other[i].contains(',') by {
                    assert(other[i] == b[i]);
                }
            }
            lemma_listed(fore, other);
        }
        assert(a =~= fore.push(last));
        assert(b =~= other.push(b.last()));
        assert(fore =~= other);
    }
}

/// A list ends with its last name, and where there are more with a comma before it.
proof fn lemma_listed_ends(names: Seq<Seq<char>>)
    requires
        names.len() > 0,
        plain_names(names),
    ensures
        listed(names).len() >= names.last().len() > 0,
        forall|i: int|
            0 <= i < names.last().len() ==> #[trigger] names.last()[i] == listed(names)[listed(
                names,
            ).len() - names.last().len() + i],
        names.len() == 1 ==> listed(names).len() == names.last().len(),
        names.len() > 1 ==> listed(names).len() > names.last().len() && listed(names)[listed(
            names,
        ).len() - names.last().len() - 1] == ',',
{
    reveal_strlit(",");
    assert(names.last() == names[names.len() - 1]);
}

/// The last name of one list is no longer than that of another listed alike.
proof fn lemma_same_end(a: Seq<Seq<char>>, b: Seq<Seq<char>>)
    requires
        a.len() > 0,
        b.len() > 0,
        plain_names(a),
        plain_names(b),
        listed(a) == listed(b),
    ensures
        a.last().len() <= b.last().len(),
{
    lemma_listed_ends(a);
    lemma_listed_ends(b);
    let text = listed(a);
    if a.last().len() > b.last().len() {
        let comma = text.len() - b.last().len() - 1;
        let at = comma - (text.len() - a.last().len());
        if b.len() > 1 {
            assert(text[comma] == ',');
            assert(a.last()[at] == text[text.len() - a.last().len() + at]);
            assert(a.last()[at] == ',');
            assert(a.last() == a[a.len() - 1]);
            assert(a[a.len() - 1].contains(','));
        }
    }
}

/// Keeping the document elsewhere changes the key: the path is a caption.
pub proof fn law_the_path_is_part_of_the_shape(
    active: Seq<char>,
    names: Seq<Seq<char>>,
    reference: bool,
    path: Seq<char>,
    other: Seq<char>,
    readers: Seq<Seq<char>>,
    rest: Seq<char>,
)
    requires
        path != other,
    ensures
        outer_key(active, names, reference, path, readers) + rest != outer_key(
            active,
            names,
            reference,
            other,
            readers,
        ) + rest,
{
    let before = active + "|"@ + listed(names) + "|"@ + (if reference {
        "ref"@
    } else {
        "noref"@
    }) + "|"@;
    let after = "|"@ + listed(readers) + "|"@ + rest;
    assert(outer_key(active, names, reference, path, readers) + rest =~= before + path + after);
    assert(outer_key(active, names, reference, other, readers) + rest =~= before + other + after);
    lemma_middle(before, path, other, after);
}

/// Another reader, anywhere in the document, changes the key.
pub proof fn law_the_readers_are_part_of_the_shape(
    active: Seq<char>,
    names: Seq<Seq<char>>,
    reference: bool,
    path: Seq<char>,
    readers: Seq<Seq<char>>,
    others: Seq<Seq<char>>,
    rest: Seq<char>,
)
    requires
        readers != others,
        plain_names(readers),
        plain_names(others),
    ensures
        outer_key(active, names, reference, path, readers) + rest != outer_key(
            active,
            names,
            reference,
            path,
            others,
        ) + rest,
{
    if listed(readers) == listed(others) {
        lemma_listed(readers, others);
    }
    let before = active + "|"@ + listed(names) + "|"@ + (if reference {
        "ref"@
    } else {
        "noref"@
    }) + "|"@ + path + "|"@;
    let after = "|"@ + rest;
    assert(outer_key(active, names, reference, path, readers) + rest =~= before + listed(readers)
        + after);
    assert(outer_key(active, names, reference, path, others) + rest =~= before + listed(others)
        + after);
    lemma_middle(before, listed(readers), listed(others), after);
}

/// Two texts that differ still differ behind the same beginning.
proof fn lemma_behind(before: Seq<char>, a: Seq<char>, b: Seq<char>)
    requires
        a != b,
    ensures
        before + a != before + b,
{
    lemma_middle(before, a, b, Seq::empty());
    assert(before + a + Seq::<char>::empty() =~= before + a);
    assert(before + b + Seq::<char>::empty() =~= before + b);
}

/// Two texts that differ still differ before the same end.
proof fn lemma_ahead(a: Seq<char>, b: Seq<char>, after: Seq<char>)
    requires
        a != b,
    ensures
        a + after != b + after,
{
    lemma_middle(Seq::empty(), a, b, after);
    assert(Seq::<char>::empty() + a + after =~= a + after);
    assert(Seq::<char>::empty() + b + after =~= b + after);
}

/// What of a layer's key stands behind the ends of its range.
spec fn rest_of(layer: LayerShape, before: Seq<char>) -> Seq<char> {
    before + "|categorical:"@ + said(layer.categorical) + "|hillshade:"@ + said(layer.hillshade)
        + "|contours:"@ + said(layer.contours) + "|"@
}

proof fn lemma_rest(layer: LayerShape, a: Seq<char>, b: Seq<char>)
    requires
        a != b,
    ensures
        rest_of(layer, a) != rest_of(layer, b),
{
    let a1 = a + "|categorical:"@;
    let b1 = b + "|categorical:"@;
    lemma_ahead(a, b, "|categorical:"@);
    let a2 = a1 + said(layer.categorical);
    let b2 = b1 + said(layer.categorical);
    lemma_ahead(a1, b1, said(layer.categorical));
    let a3 = a2 + "|hillshade:"@;
    let b3 = b2 + "|hillshade:"@;
    lemma_ahead(a2, b2, "|hillshade:"@);
    let a4 = a3 + said(layer.hillshade);
    let b4 = b3 + said(layer.hillshade);
    lemma_ahead(a3, b3, said(layer.hillshade));
    let a5 = a4 + "|contours:"@;
    let b5 = b4 + "|contours:"@;
    lemma_ahead(a4, b4, "|contours:"@);
    let a6 = a5 + said(layer.contours);
    let b6 = b5 + said(layer.contours);
    lemma_ahead(a5, b5, said(layer.contours));
    lemma_ahead(a6, b6, "|"@);
}

/// Layer keys that differ make keys that differ.
proof fn lemma_whole(outer: Seq<char>, a: Seq<char>, b: Seq<char>, file: Seq<char>)
    requires
        a != b,
    ensures
        outer + (a + file) != outer + (b + file),
{
    lemma_ahead(a, b, file);
    lemma_behind(outer, a + file, b + file);
}

/// Another shift changes the key, since the shift is a caption.
pub proof fn law_the_shift_is_part_of_the_shape(
    outer: Seq<char>,
    layer: LayerShape,
    shift: u8,
    file: Seq<char>,
)
    requires
        layer.shift != shift,
    ensures
        outer + (layer_key(layer) + file) != outer + (layer_key(LayerShape { shift, ..layer })
            + file),
{
    let other = LayerShape { shift, ..layer };
    let a = decimal(layer.shift as nat);
    let b = decimal(shift as nat);
    if a == b {
        lemma_decimal(layer.shift as nat, shift as nat);
    }
    let head = layer.role.shown() + "|shift:"@;
    let low = layer.range.0;
    let high = layer.range.1;
    lemma_behind(head, a, b);
    lemma_ahead(head + a, head + b, "|range:"@);
    lemma_ahead(head + a + "|range:"@, head + b + "|range:"@, low);
    lemma_ahead(head + a + "|range:"@ + low, head + b + "|range:"@ + low, ".."@);
    lemma_ahead(
        head + a + "|range:"@ + low + ".."@,
        head + b + "|range:"@ + low + ".."@,
        high,
    );
    let one = head + a + "|range:"@ + low + ".."@ + high;
    let two = head + b + "|range:"@ + low + ".."@ + high;
    lemma_rest(layer, one, two);
    assert(layer_key(layer) == rest_of(layer, one));
    assert(layer_key(other) == rest_of(layer, two));
    lemma_whole(outer, layer_key(layer), layer_key(other), file);
}

/// A low end of the range that is printed otherwise changes the key, since the range is a
/// caption.
pub proof fn law_the_low_end_is_part_of_the_shape(
    outer: Seq<char>,
    layer: LayerShape,
    end: Seq<char>,
    file: Seq<char>,
)
    requires
        layer.range.0 != end,
    ensures
        outer + (layer_key(layer) + file) != outer + (layer_key(
            LayerShape { range: (end, layer.range.1), ..layer },
        ) + file),
{
    let other = LayerShape { range: (end, layer.range.1), ..layer };
    let head = layer.role.shown() + "|shift:"@ + decimal(layer.shift as nat) + "|range:"@;
    let a = layer.range.0;
    let b = end;
    let high = layer.range.1;
    lemma_behind(head, a, b);
    lemma_ahead(head + a, head + b, ".."@);
    lemma_ahead(head + a + ".."@, head + b + ".."@, high);
    let one = head + a + ".."@ + high;
    let two = head + b + ".."@ + high;
    lemma_rest(layer, one, two);
    assert(layer_key(layer) == rest_of(layer, one));
    assert(layer_key(other) == rest_of(layer, two));
    lemma_whole(outer, layer_key(layer), layer_key(other), file);
}

/// A high end of the range that is printed otherwise changes the key.
pub proof fn law_the_high_end_is_part_of_the_shape(
    outer: Seq<char>,
    layer: LayerShape,
    end: Seq<char>,
    file: Seq<char>,
)
    requires
        layer.range.1 != end,
    ensures
        outer + (layer_key(layer) + file) != outer + (layer_key(
            LayerShape { range: (layer.range.0, end), ..layer },
        ) + file),
{
    let other = LayerShape { range: (layer.range.0, end), ..layer };
    let head = layer.role.shown() + "|shift:"@ + decimal(layer.shift as nat) + "|range:"@ + layer.range.0 + ".."@;
    let a = layer.range.1;
    let b = end;
    lemma_behind(head, a, b);
    lemma_rest(layer, head + a, head + b);
    assert(layer_key(layer) == rest_of(layer, head + a));
    assert(layer_key(other) == rest_of(layer, head + b));
    lemma_whole(outer, layer_key(layer), layer_key(other), file);
}

/// Holding classes or not changes the key, since that is a caption.
pub proof fn law_the_class_is_part_of_the_shape(
    outer: Seq<char>,
    layer: LayerShape,
    file: Seq<char>,
)
    ensures
        outer + (layer_key(layer) + file) != outer + (layer_key(
            LayerShape { categorical: !layer.categorical, ..layer },
        ) + file),
{
    reveal_strlit("true");
    reveal_strlit("false");
    let other = LayerShape { categorical: !layer.categorical, ..layer };
    let a = said(layer.categorical);
    let b = said(other.categorical);
    assert(a[0] != b[0]);
    let head = layer.role.shown() + "|shift:"@ + decimal(layer.shift as nat) + "|range:"@ + layer.range.0 + ".."@ + layer.range.1 + "|categorical:"@;
    let shade = said(layer.hillshade);
    let lines = said(layer.contours);
    lemma_behind(head, a, b);
    let a1 = head + a + "|hillshade:"@;
    let b1 = head + b + "|hillshade:"@;
    lemma_ahead(head + a, head + b, "|hillshade:"@);
    let a2 = a1 + shade;
    let b2 = b1 + shade;
    lemma_ahead(a1, b1, shade);
    let a3 = a2 + "|contours:"@;
    let b3 = b2 + "|contours:"@;
    lemma_ahead(a2, b2, "|contours:"@);
    lemma_ahead(a3, b3, lines);
    lemma_ahead(a3 + lines, b3 + lines, "|"@);
    lemma_whole(outer, layer_key(layer), layer_key(other), file);
}

/// A number changes no shape: neither what a parameter holds, nor the light, nor the interval
/// of the contours, nor what was computed from them.
pub proof fn law_a_number_is_no_part_of_the_shape(
    layer: Layer,
    shader: ShaderLayer,
    light_azimuth: Single,
    contour_interval: Single,
    baked: Raster<Single>,
    low: Seq<char>,
    high: Seq<char>,
)
    ensures
        shape_of(
            Layer { shader, light_azimuth, contour_interval, baked, ..layer },
            low,
            high,
        ) == shape_of(layer, low, high),
{
}

/// The shape of a panel starts with the layer on screen and then the names of all layers, and
/// says whether there is a reference, the path and the readers in that order.
pub proof fn law_the_shape_starts_with_the_layer_on_screen(
    active: Seq<char>,
    names: Seq<Seq<char>>,
    reference: bool,
    path: Seq<char>,
    readers: Seq<Seq<char>>,
)
    ensures
        outer_key(active, names, reference, path, readers) == active + "|"@ + listed(names) + "|"@
            + (if reference {
            "ref"@
        } else {
            "noref"@
        }) + "|"@ + path + "|"@ + listed(readers) + "|"@,
        names.len() > 0 ==> listed(names.push(path)) == listed(names) + ","@ + path,
        listed(seq![path]) == path,
{
    assert(names.push(path).drop_last() =~= names);
}

/// A flag that is set is said to be true, and one that is not to be false.
pub proof fn law_a_flag_is_said_as_it_is()
    ensures
        said(true) == "true"@,
        said(false) == "false"@,
{
}

} // verus!
