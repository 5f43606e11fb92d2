//! Numbers, texts and what is drawn from them.

use watershed_editor::brush::CellRect;
use watershed_editor::grid::{direction_index, neighbour};
use watershed_editor::heap::{Pending, Queue};
use watershed_editor::layer::Layer;
use watershed_editor::maps::{field_bytes, ByteOrder, Revisions};
use watershed_editor::number::is_number;
use watershed_editor::raster::{Raster, UVec2};
use watershed_editor::single::Single;
use watershed_editor::terrain::TerrainSpec;
use watershed_editor::text::{
    between, chars_of, decimal_of, is_word, split_lines, split_once, string_of, trim,
};
use watershed_editor::values::{is_before, Values};
use watershed_editor::view::{
    diverges, fit_range, legend_caption, map_resolution, pan_direction, visible_cells, water_map,
    zoom_input, MapRevisions, PanKeys,
};
use watershed_editor::water::{WaterParts, WaterState};

fn single(value: f32) -> Single {
    Single(value.to_bits())
}

const SPREAD: [f32; 12] = [
    f32::NEG_INFINITY,
    f32::MIN,
    -1.5,
    -1.0,
    -f32::MIN_POSITIVE,
    0.0,
    1.0e-40,
    f32::MIN_POSITIVE,
    1.0,
    2.5,
    f32::MAX,
    f32::INFINITY,
];

// The bits of a single compare as the number does.
#[test]
fn a_single_compares_as_its_number_does() {
    for a in SPREAD {
        for b in SPREAD {
            assert_eq!(single(a).lt(single(b)), a < b, "{a} {b}");
            assert_eq!(single(a).le(single(b)), a <= b, "{a} {b}");
            assert_eq!(f32::from_bits(single(a).max(single(b)).0), a.max(b), "{a} {b}");
            if a < b {
                assert!(single(a).order_key() < single(b).order_key());
            }
        }
        assert!(!single(a).lt(single(f32::NAN)) && !single(f32::NAN).le(single(a)));
        assert_eq!(single(a).is_finite(), a.is_finite());
    }
    assert!(single(-0.0).le(single(0.0)) && single(0.0).le(single(-0.0)));
    assert!(single(f32::NAN).is_nan() && !single(1.0).is_nan());
    assert_eq!(single(f32::NAN).max(single(1.0)), single(1.0));
}

#[test]
fn the_next_single_up_is_the_next_there_is() {
    for a in SPREAD {
        assert_eq!(single(a).next_up(), single(a.next_up()), "{a}");
    }
    assert_eq!(single(-0.0).next_up(), single((-0.0f32).next_up()));
}

#[test]
fn a_single_is_held_between_two_others() {
    for a in SPREAD {
        let held = single(a).clamp(single(-1.0), single(2.0));
        assert_eq!(f32::from_bits(held.0), a.clamp(-1.0, 2.0), "{a}");
    }
    assert!(single(f32::NAN).clamp(single(0.0), single(1.0)).is_nan());
}

#[test]
fn a_single_rounds_as_its_number_does() {
    let mut all = SPREAD.to_vec();
    all.extend([0.5, 1.5, 2.4999, -0.5, -2.5, 1.0e9, 3.0e9, 5.0e9, -3.0e9, 8388607.5, f32::NAN]);
    for a in all {
        assert_eq!(single(a).round_i32(), a.round() as i32, "{a}");
        assert_eq!(single(a).round_u32(), a.round() as u32, "{a}");
        assert_eq!(single(a).to_le_bytes(), a.to_le_bytes(), "{a}");
    }
}

// A text is a number exactly where it can be read as one.
#[test]
fn a_text_is_a_number_where_it_can_be_read_as_one() {
    for text in [
        "1", "1.0", "-1.5", "+2", ".5", "5.", "1e3", "1E-3", "1.5e+10", "inf", "-Infinity", "nan",
        "NaN", "0", "-0.0", "", "-", "+", ".", "e3", "1e", "1e+", "1.2.3", "1 2", " 1", "one",
        "0x10", "1_000", "--1", "infi", "1f",
    ] {
        let chars = chars_of(text);
        assert_eq!(is_number(&chars), text.parse::<f32>().is_ok(), "{text}");
    }
}

// The first out is the lowest key, and of equal keys the lowest index.
#[test]
fn a_queue_hands_out_the_lowest_first() {
    let mut queue = Queue::new();
    for (key, index) in [(5, 1), (3, 9), (3, 2), (8, 0), (3, 4)] {
        queue.push(Pending { key, index });
    }
    let mut out = Vec::new();
    while let Some(item) = queue.pop() {
        out.push((item.key, item.index));
    }
    assert_eq!(out, vec![(3, 2), (3, 4), (3, 9), (5, 1), (8, 0)]);
    assert!(Pending { key: 3, index: 2 }.is_before(Pending { key: 3, index: 4 }));
}

// The eight steps run round a cell, and a step off the grid leads nowhere.
#[test]
fn a_step_off_the_grid_leads_nowhere() {
    let around: Vec<Option<usize>> = (0..8).map(|step| neighbour(1, 1, step, 3, 3)).collect();
    assert_eq!(
        around,
        [5, 8, 7, 6, 3, 0, 1, 2].map(Some).to_vec()
    );
    assert_eq!(neighbour(2, 1, 0, 3, 3), None);
    assert_eq!(neighbour(0, 0, 5, 3, 3), None);
    assert_eq!(direction_index(0), None);
    assert_eq!(direction_index(8), Some(7));
    assert_eq!(direction_index(9), None);
}

#[test]
fn texts_are_cut_as_their_characters_say() {
    assert_eq!(decimal_of(0), "0");
    assert_eq!(decimal_of(1_024), "1024");
    assert_eq!(decimal_of(u128::MAX), u128::MAX.to_string());
    let text = chars_of("  a = b = c\t");
    assert_eq!(string_of(trim(&text)), "a = b = c");
    let (before, after) = split_once(&text, " = ").unwrap();
    assert_eq!((string_of(before), string_of(after)), ("  a".to_owned(), "b = c\t".to_owned()));
    assert!(split_once(&text, "::").is_none());
    assert!(is_word(&chars_of("toggle"), "toggle") && !is_word(&chars_of("toggles"), "toggle"));
    let lines = chars_of("one\ntwo\r\n\nlast");
    let lines: Vec<String> = split_lines(&lines).into_iter().map(string_of).collect();
    assert_eq!(lines, "one\ntwo\r\n\nlast".lines().collect::<Vec<_>>());
    assert_eq!(between("`", &chars_of("né"), "` it is"), "`né` it is");
}

// Names are kept in order, each once.
#[test]
fn values_are_kept_in_the_order_of_their_names() {
    let mut values = Values::new();
    for name in ["b", "a", "c", "a"] {
        values.insert(name.to_owned(), vec![single(values.len() as f32)]);
    }
    let names: Vec<&str> = (0..values.len()).map(|at| values.name_at(at).unwrap()).collect();
    assert_eq!(names, ["a", "b", "c"]);
    assert_eq!(values.get("a"), Some(&vec![single(3.0)]));
    values.remove_at(1);
    assert!(!values.contains_key("b"));
    assert_eq!(values.value_at(1), Some(&vec![single(2.0)]));
    assert!(is_before("a", "ab") && is_before("Z", "a") && !is_before("a", "a"));
}

#[test]
fn a_raster_is_read_and_written_by_column_and_row() {
    let mut raster = Raster::from_vec(UVec2::new(2, 2), vec![1, 2, 3, 4]).unwrap();
    assert_eq!(raster.get(1, 0), Some(&2));
    assert_eq!(raster.get(2, 0), None);
    raster.set(0, 1, 9);
    assert_eq!(raster.data, vec![1, 2, 9, 4]);
    assert!(Raster::from_vec(UVec2::new(2, 2), vec![1]).is_none());
    assert!(Raster::<u8>::empty().is_empty());
    assert_eq!(raster.clone().data, raster.data);
}

// The ends of the ramp leave out the outermost fortieth at each end.
#[test]
fn a_ramp_leaves_out_the_outermost_fortieth() {
    let mut samples: Vec<Single> = (0..80).rev().map(|n| single(n as f32)).collect();
    samples.push(single(f32::NAN));
    samples.push(single(f32::INFINITY));
    assert_eq!(fit_range(&samples), Some((single(2.0), single(77.0))));
    assert_eq!(fit_range(&vec![single(3.0)]), Some((single(3.0), single(3.0))));
    assert_eq!(fit_range(&vec![single(f32::NAN)]), None);
}

#[test]
fn a_ramp_diverges_where_zero_is_inside_it() {
    assert!(diverges(single(-1.0), single(1.0)));
    assert!(!diverges(single(0.0), single(1.0)));
    assert!(!diverges(single(-1.0), single(0.0)));
    assert_eq!(legend_caption(true), "diverging about 0");
    assert_eq!(legend_caption(false), "fitted to the view");
}

#[test]
fn the_water_map_marks_what_stands_and_what_runs() {
    let height = Raster::new(UVec2::new(2, 1), single(0.0));
    let parts = WaterParts {
        slopes: vec![[single(0.0); 8]; 2],
        codes: vec![3, 9],
        depth: vec![single(0.5), single(0.0)],
    };
    let state = WaterState::solve(&height, parts, 4);
    assert_eq!(water_map(&state, 5), vec![255, 0, 0, 255]);
    assert_eq!(map_resolution(&height), UVec2::new(2, 1));
    assert_eq!(map_resolution(&Raster::empty()), UVec2::splat(1));
}

#[test]
fn a_map_is_made_again_when_its_revision_moves() {
    let mut revisions = MapRevisions::new();
    assert!(revisions.field_is_stale(1, 1));
    assert!(!revisions.field_is_stale(1, 1));
    assert!(revisions.field_is_stale(1, 2));
    assert!(revisions.water_is_stale(1));
    assert!(!revisions.water_is_stale(1));
}

#[test]
fn keys_move_the_view_unless_something_else_has_them() {
    let keys = PanKeys { left: true, right: false, down: false, up: true };
    assert_eq!(pan_direction(keys, false), (-1, 1));
    assert_eq!(pan_direction(keys, true), (0, 0));
    assert_eq!(pan_direction(PanKeys { right: true, ..keys }, false), (0, 1));
    assert_eq!(zoom_input(false, false, false, true, false), (true, 1));
    assert_eq!(zoom_input(true, false, true, true, false), (false, 0));
    assert_eq!(zoom_input(false, true, false, false, true), (false, -1));
    assert_eq!(
        visible_cells((-3, 2), (5, 9), UVec2::new(4, 6)),
        CellRect::new(UVec2::new(0, 2), UVec2::new(4, 6))
    );
    assert!(visible_cells((9, 9), (12, 12), UVec2::new(4, 6)).is_empty());
}

// A map is drawn again when what it shows has moved, and what is shown alone takes its place.
#[test]
fn maps_are_drawn_again_only_when_something_moved() {
    let mut layer = Layer::new("height");
    layer.hillshade = true;
    layer.baked = Raster::new(UVec2::new(2, 1), single(1.0));
    let terrain = TerrainSpec::new(UVec2::new(2, 1)).with_field(layer);
    let now = Revisions { document: 1, generation: 0, water: 1 };
    let mut revisions = MapRevisions::new();

    let first = revisions.refresh(&terrain, "height", None, now, 5, ByteOrder::Little);
    assert!(first.settings.unwrap().hillshade);
    let field = first.field.unwrap();
    assert_eq!(field.resolution, UVec2::new(2, 1));
    assert_eq!(field.bytes, [0, 0, 0x80, 0x3f, 0, 0, 0x80, 0x3f]);
    assert_eq!(first.water.unwrap().bytes, [0, 0]);

    let again = revisions.refresh(&terrain, "height", None, now, 5, ByteOrder::Little);
    assert!(again.field.is_none() && again.water.is_none() && again.settings.is_some());

    let alone = Raster::empty();
    let moved = Revisions { generation: 1, ..now };
    let shown = revisions.refresh(&terrain, "height", Some(&alone), moved, 5, ByteOrder::Little);
    assert_eq!(shown.field.unwrap().bytes, [0, 0, 0, 0]);

    let gone = Revisions { document: 2, water: 2, ..now };
    let nothing = revisions.refresh(&terrain, "gone", None, gone, 5, ByteOrder::Little);
    assert!(nothing.settings.is_none() && nothing.field.is_none() && nothing.water.is_none());
    assert_eq!(revisions.water, Some(1));
    assert_eq!(field_bytes(&vec![single(-0.0)], ByteOrder::Little), [0, 0, 0, 0x80]);
    assert_eq!(field_bytes(&vec![single(-0.0)], ByteOrder::Big), [0x80, 0, 0, 0]);
    for value in [1.5f32, -3.25, 1e-30] {
        assert_eq!(field_bytes(&vec![single(value)], ByteOrder::Little), value.to_le_bytes());
        assert_eq!(field_bytes(&vec![single(value)], ByteOrder::Big), value.to_be_bytes());
    }
}

#[test]
fn a_single_is_truncated_as_a_cast_does() {
    let values = [
        0.0, 0.25, 0.999, 1.0, 1.5, 7.99, 8.0, 255.5, 16777215.0, 16777216.0, 2147483648.0,
        4294967040.0, 4294967296.0, 1e20, -1.0, -0.5, f32::INFINITY, f32::NEG_INFINITY, f32::NAN,
        f32::MIN_POSITIVE, f32::MAX,
    ];
    for value in values {
        assert_eq!(Single(value.to_bits()).truncate_u32(), value as u32, "{value}");
    }
}

#[test]
fn a_single_says_whether_it_is_whole() {
    let values = [
        0.0, -0.0, 0.5, 1.0, -1.0, -1.5, 3.25, 255.0, 16777215.0, 8388607.5, 8388608.0, 1e20,
        f32::MIN_POSITIVE, f32::MAX, f32::INFINITY, f32::NAN,
    ];
    for value in values {
        let whole = value.is_finite() && value.trunc() == value;
        assert_eq!(Single(value.to_bits()).is_integral(), whole, "{value}");
    }
}
