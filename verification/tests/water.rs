//! Water solved over a height raster, and put on a document.

use watershed_editor::drain::directions;
use watershed_editor::flood::fill;
use watershed_editor::grid::neighbour;
use watershed_editor::lakes::label_lakes;
use watershed_editor::layer::Layer;
use watershed_editor::raster::{Raster, UVec2};
use watershed_editor::single::Single;
use watershed_editor::terrain::TerrainSpec;
use watershed_editor::transfer::accumulate;
use watershed_editor::water::{WaterError, WaterParts, WaterSpec, WaterState};

fn single(value: f32) -> Single {
    Single(value.to_bits())
}

fn number(value: Single) -> f32 {
    f32::from_bits(value.0)
}

const ACCUM_QUANT: f32 = 3900.0;

fn quantize_accumulation(value: f32) -> u16 {
    let code = value.max(0.0).ln_1p() * ACCUM_QUANT;
    code.round().clamp(0.0, u16::MAX as f32) as u16
}

fn dequantize_accumulation(code: u16) -> f32 {
    (code as f32 / ACCUM_QUANT).exp_m1()
}

/// What is measured along and over the flooded surface of `height`.
fn measured(height: &Raster<Single>, weight: &[f32]) -> WaterParts {
    let width = height.size.x as usize;
    let rows = height.size.y as usize;
    let flood = fill(height);
    let mut slopes = vec![[single(0.0); 8]; width * rows];
    for index in 0..width * rows {
        for step in 0..8 {
            let Some(target) = neighbour(index % width, index / width, step, width, rows) else {
                continue;
            };
            let distance = if step % 2 == 0 { 1.0 } else { std::f32::consts::SQRT_2 };
            let (here, there) = (number(flood.filled[index]), number(flood.filled[target]));
            let fall = if there < here {
                here - there
            } else {
                number(flood.routing[index]) - number(flood.routing[target])
            };
            slopes[index][step] = single(fall / distance);
        }
    }
    let flow = directions(&flood.filled, &flood.routing, &slopes, width, rows);
    let mut total = weight.to_vec();
    if total.len() == width * rows {
        for (from, to) in accumulate(&flow, width, rows) {
            total[to] += total[from];
        }
    }
    WaterParts {
        slopes,
        codes: total.into_iter().map(quantize_accumulation).collect(),
        depth: flood
            .filled
            .iter()
            .zip(&height.data)
            .map(|(surface, ground)| single((number(*surface) - number(*ground)).max(0.0)))
            .collect(),
    }
}

fn solve(height: &Raster<Single>, weight: &[f32], lake_min_cells: u32) -> WaterState {
    WaterState::solve(height, measured(height, weight), lake_min_cells)
}

fn accumulation(state: &WaterState, x: u32, y: u32) -> f32 {
    dequantize_accumulation(state.accumulation_code(x, y))
}

fn flow_vector(state: &WaterState, x: u32, y: u32) -> Option<(f32, f32)> {
    let (across, down) = state.flow_step(x, y)?;
    let (across, down) = (across as f32, down as f32);
    let length = (across * across + down * down).sqrt();
    Some((across / length, down / length))
}

fn depth(state: &WaterState, x: u32, y: u32) -> f32 {
    number(state.depth_at(x, y).unwrap())
}

fn raster_from(size: UVec2, cell: impl Fn(u32, u32) -> f32) -> Raster<Single> {
    let mut raster = Raster::new(size, single(0.0));
    for y in 0..size.y {
        for x in 0..size.x {
            raster.set(x, y, single(cell(x, y)));
        }
    }
    raster
}

fn cone(size: UVec2) -> Raster<Single> {
    let (middle_x, middle_y) = ((size.x as f32 - 1.0) * 0.5, (size.y as f32 - 1.0) * 0.5);
    raster_from(size, |x, y| {
        let (across, down) = (x as f32 - middle_x, y as f32 - middle_y);
        -(across * across + down * down).sqrt() / size.x as f32
    })
}

fn bowl(size: UVec2) -> Raster<Single> {
    raster_from(size, |x, y| {
        let edge = x == 0 || y == 0 || x + 1 == size.x || y + 1 == size.y;
        let rim = x == 1 || y == 1 || x + 2 == size.x || y + 2 == size.y;
        if edge {
            0.5
        } else if rim {
            1.0
        } else {
            0.0
        }
    })
}

fn unit_weights(size: UVec2) -> Vec<f32> {
    vec![1.0; size.x as usize * size.y as usize]
}

fn solved(height: &Raster<Single>) -> WaterState {
    solve(height, &unit_weights(height.size), 4)
}

/// A layer whose shader reads `value` everywhere.
fn held(layer: Layer, value: f32) -> Layer {
    let mut layer = layer;
    layer.shader.params.insert("value".to_owned(), vec![single(value)]);
    layer.shader.put_values(Raster::new(UVec2::splat(1), single(value)));
    layer
}

/// Solves a document's water as `spec` says, where it can be.
fn solve_document(terrain: &mut TerrainSpec, spec: &WaterSpec) -> Result<(), WaterError> {
    let parts = match terrain.water_inputs(spec) {
        Ok((height, moisture)) => {
            let weight: Vec<f32> = match moisture {
                Some(field) => {
                    let raster = field.baked();
                    (0..height.baked().data.len())
                        .map(|index| {
                            let x = index as u32 % terrain.size.x;
                            let y = index as u32 / terrain.size.x;
                            let texel = raster.get(x >> field.shift, y >> field.shift);
                            texel.map_or(0.0, |value| number(*value).max(0.0))
                        })
                        .collect()
                }
                None => unit_weights(terrain.size),
            };
            measured(height.baked(), &weight)
        }
        Err(_) => WaterParts::none(),
    };
    terrain.solve_water(spec, parts)
}

// The one invariant everything downstream rests on: if a step could go up, a
// flow path could cycle and the accumulation pass would deadlock rather than
// give a wrong answer.
#[test]
fn no_cell_drains_uphill_on_the_filled_surface() {
    let size = UVec2::new(41, 37);
    let height = raster_from(size, |x, y| {
        let u = x as f32 * 0.31;
        let v = y as f32 * 0.27;
        (u.sin() + v.cos() + (u * 0.5 + v * 0.7).sin()) * 0.25
    });
    let state = solved(&height);
    let filled = fill(&height).filled;

    let mut steps = 0;
    for y in 0..size.y {
        for x in 0..size.x {
            let Some(target) = state.downstream(x, y) else {
                continue;
            };
            steps += 1;
            let here = number(filled[(y * size.x + x) as usize]);
            let there = number(filled[(target.y * size.x + target.x) as usize]);
            assert!(
                there <= here,
                "cell {x},{y} at {here} drains to {},{} at {there}",
                target.x,
                target.y
            );
        }
    }
    assert!(steps > 0);
}

// States the accumulation pass locally, which is the form an error in the
// topological order shows up in: a cell drained before one of its contributors
// is short by exactly that contributor and by nothing else.
#[test]
fn a_cells_accumulation_is_one_plus_what_flows_into_it() {
    let size = UVec2::new(29, 23);
    let height = raster_from(size, |x, y| {
        let u = x as f32 * 0.4;
        let v = y as f32 * 0.35;
        (u.cos() + v.sin()) * 0.3 - (x + y) as f32 * 0.01
    });
    let state = solved(&height);

    let mut contributed = vec![0.0f32; (size.x * size.y) as usize];
    for y in 0..size.y {
        for x in 0..size.x {
            if let Some(target) = state.downstream(x, y) {
                contributed[(target.y * size.x + target.x) as usize] += accumulation(&state, x, y);
            }
        }
    }

    for y in 0..size.y {
        for x in 0..size.x {
            let expected = 1.0 + contributed[(y * size.x + x) as usize];
            let found = accumulation(&state, x, y);
            assert!(
                (found - expected).abs() <= expected * 1e-3,
                "cell {x},{y} holds {found} against {expected}"
            );
        }
    }
}

// The global counterpart: every unit of weight has to leave through some sink,
// so nothing may be lost in a depression or counted twice on the way down.
#[test]
fn the_total_accumulation_equals_the_weighted_cell_count() {
    let size = UVec2::new(31, 31);
    let height = cone(size);
    let weight: Vec<f32> = (0..(size.x * size.y))
        .map(|index| 0.25 + (index % 7) as f32 * 0.1)
        .collect();
    let state = solve(&height, &weight, 4);

    let mut delivered = 0.0f32;
    for y in 0..size.y {
        for x in 0..size.x {
            if state.downstream(x, y).is_none() {
                delivered += accumulation(&state, x, y);
            }
        }
    }
    let total: f32 = weight.iter().sum();
    assert!(
        (delivered - total).abs() <= total * 1e-3,
        "{delivered} reached the sinks against {total} laid down"
    );
}

// A surface whose correct answer is known everywhere, so the routing can be
// checked against something other than itself, and one with no depressions, so
// it also pins that the fill leaves an already-draining surface alone.
#[test]
fn a_cone_drains_radially() {
    let size = UVec2::new(33, 33);
    let state = solved(&cone(size));
    let (middle_x, middle_y) = ((size.x as f32 - 1.0) * 0.5, (size.y as f32 - 1.0) * 0.5);

    for y in 0..size.y {
        for x in 0..size.x {
            let (across, down) = (x as f32 - middle_x, y as f32 - middle_y);
            let length = (across * across + down * down).sqrt();
            assert!(!state.is_water(x, y));
            if length < 2.0 || x == 0 || y == 0 || x + 1 == size.x || y + 1 == size.y {
                continue;
            }
            let flow = flow_vector(&state, x, y)
                .unwrap_or_else(|| panic!("cell {x},{y} has no outflow"));
            assert!(
                flow.0 * across / length + flow.1 * down / length > 0.0,
                "cell {x},{y} flows {flow:?}"
            );
        }
    }
}

// Pins where the fill stops. Below the rim the depression is not resolved and
// the routing has nowhere to go; above it the water spills across ground it
// never reached.
#[test]
fn a_bowl_fills_to_exactly_its_rim() {
    let size = UVec2::new(11, 11);
    let height = bowl(size);
    let state = solved(&height);

    for y in 0..size.y {
        for x in 0..size.x {
            let ground = number(*height.get(x, y).unwrap());
            let surface = ground + number(*state.depth().get(x, y).unwrap());
            if ground < 1.0 && x > 1 && y > 1 && x + 2 < size.x && y + 2 < size.y {
                assert_eq!(surface, 1.0, "cell {x},{y} stands at {surface}");
                assert!(state.is_water(x, y));
            } else {
                assert_eq!(number(*state.depth().get(x, y).unwrap()), 0.0);
            }
        }
    }
    assert_eq!(state.lakes(), 1);
    assert_eq!(*state.lake_id().get(5, 5).unwrap(), 1);
    assert_eq!(*state.lake_id().get(0, 0).unwrap(), 0);
}

// The threshold suppresses a label, not the water: a puddle still has a depth
// and still reads as water, so a consumer drawing surfaces and a consumer
// listing lakes see different things by design.
#[test]
fn a_lake_under_the_minimum_keeps_its_depth_and_loses_its_label() {
    let size = UVec2::new(11, 11);
    let height = bowl(size);
    let state = solve(&height, &unit_weights(size), 10_000);
    assert!(state.is_water(5, 5));
    assert_eq!(state.lakes(), 0);
    assert_eq!(*state.lake_id().get(5, 5).unwrap(), 0);
}

// The two public readings of one stored byte are resolved by separate code
// paths; a neighbour table indexed off by one would leave them consistent with
// themselves and disagreeing with each other.
#[test]
fn a_flow_code_and_the_cell_it_names_agree() {
    let size = UVec2::new(33, 33);
    let state = solved(&cone(size));
    for y in 0..size.y {
        for x in 0..size.x {
            let Some(target) = state.downstream(x, y) else {
                continue;
            };
            let vector = flow_vector(&state, x, y).unwrap();
            let (across, down) = (target.x as f32 - x as f32, target.y as f32 - y as f32);
            let length = (across * across + down * down).sqrt();
            assert!((vector.0 - across / length).abs() < 1e-6);
            assert!((vector.1 - down / length).abs() < 1e-6);
        }
    }
}

// Thresholding by code and by value have to agree, and this pins how far they
// may not: only where the accumulation is within a quantization step of the
// threshold.
#[test]
fn comparing_codes_answers_what_comparing_accumulations_does() {
    let size = UVec2::new(37, 29);
    let height = raster_from(size, |x, y| {
        let u = x as f32 * 0.23;
        let v = y as f32 * 0.19;
        (u.sin() + v.cos()) * 0.3 - (x + y) as f32 * 0.008
    });
    let state = solved(&height);

    let mut channels = 0u32;
    for threshold in [1.0f32, 2.5, 8.0, 40.0, 250.0] {
        let code = quantize_accumulation(threshold);
        for y in 0..size.y {
            for x in 0..size.x {
                let value = accumulation(&state, x, y);
                let by_code = state.accumulation_code(x, y) >= code;
                assert_eq!(state.channel(x, y, code), by_code);
                channels += u32::from(by_code);
                if by_code == (value >= threshold) {
                    continue;
                }
                assert!(
                    (value - threshold).abs() <= threshold * 1e-3,
                    "cell {x},{y} at {value} disagrees about {threshold} by more than \
                     the quantization step"
                );
            }
        }
    }
    assert!(channels > 0, "no cell cleared any threshold");
}

// The priority flood pops equal-height cells in an order the heap does not
// otherwise fix; without the index tiebreak a document would solve differently
// between runs and its saved water would not match a re-solve.
#[test]
fn a_solve_is_the_same_every_time_it_is_run() {
    let size = UVec2::new(37, 29);
    let height = raster_from(size, |x, y| {
        ((x * 7 + y * 13) % 11) as f32 * 0.1 - ((x + y) % 5) as f32 * 0.05
    });
    let first = solved(&height);
    let second = solved(&height);
    assert_eq!(format!("{first:?}"), format!("{second:?}"));
}

// The document-level path, which resolves the field by name and stores the
// answer on the spec, and everything the state tests exercise is reached through
// this.
#[test]
fn a_document_solves_water_over_the_field_it_names() {
    let mut terrain =
        TerrainSpec::new(UVec2::new(16, 16)).with_field(held(Layer::new("height"), 0.5));
    terrain.bake_in_place().unwrap();
    assert!(terrain.water().is_none());
    solve_document(&mut terrain, &WaterSpec::default()).unwrap();
    let water = terrain.water().unwrap();
    assert_eq!(water.size(), UVec2::new(16, 16));
    terrain.clear_water();
    assert!(terrain.water().is_none());
}

// The two ways of getting rid of a solved state are not interchangeable, and the
// difference is the recipe: forgetting about the water drops it, invalidating a
// stale answer keeps it.
#[test]
fn invalidating_the_water_keeps_the_recipe_where_clearing_it_does_not() {
    let mut terrain =
        TerrainSpec::new(UVec2::new(16, 16)).with_field(held(Layer::new("height"), 0.5));
    terrain.bake_in_place().unwrap();
    solve_document(&mut terrain, &WaterSpec::default()).unwrap();

    terrain.invalidate_water();
    assert!(terrain.water().is_none());
    assert!(
        terrain.water_spec.is_some(),
        "an invalidated document has to be solvable again"
    );
    let spec = terrain.water_spec.clone().unwrap();
    solve_document(&mut terrain, &spec).expect("the recipe survived, so the solve does");

    terrain.clear_water();
    assert!(terrain.water().is_none());
    assert!(terrain.water_spec.is_none());
}

// The moisture field is sampled per cell and multiplies what that cell
// contributes; a constant field makes the total exactly predictable, so a
// sampling offset or a dropped weight shows up as a proportional shortfall.
#[test]
fn a_named_moisture_field_weights_what_the_sinks_deliver() {
    let size = UVec2::new(24, 24);
    let mut terrain = TerrainSpec::new(size)
        .with_field(held(Layer::new("height"), 0.5))
        .with_field(held(
            Layer::new("moisture").with_range((single(0.0), single(1.0))),
            0.25,
        ));
    terrain.bake_in_place().unwrap();
    solve_document(&mut terrain, &WaterSpec::default().with_moisture("moisture")).unwrap();

    let water = terrain.water().unwrap();
    let mut delivered = 0.0f32;
    for y in 0..size.y {
        for x in 0..size.x {
            if water.downstream(x, y).is_none() {
                delivered += accumulation(water, x, y);
            }
        }
    }
    let expected = 0.25 * (size.x * size.y) as f32;
    assert!(
        (delivered - expected).abs() <= expected * 1e-3,
        "{delivered} reached the sinks against {expected}"
    );
}

// Each refusal is a distinct variant a caller matches on, and all three leave
// the document untouched: a partially applied solve would be worse than none.
#[test]
fn a_solve_refuses_a_field_it_cannot_read() {
    let mut terrain = TerrainSpec::new(UVec2::new(8, 8))
        .with_field(held(Layer::new("height"), 0.5))
        .with_field(Layer::new("coarse").with_shift(2));
    terrain.bake_in_place().unwrap();

    assert!(matches!(
        solve_document(&mut terrain, &WaterSpec::new("absent")),
        Err(WaterError::UnknownHeightField(_))
    ));
    assert!(matches!(
        solve_document(&mut terrain, &WaterSpec::new("coarse")),
        Err(WaterError::CoarseHeight(_, 2))
    ));
    assert!(matches!(
        solve_document(&mut terrain, &WaterSpec::default().with_moisture("absent")),
        Err(WaterError::UnknownMoistureField(_))
    ));
    assert!(terrain.water().is_none());
}

// An unbaked field has an empty raster rather than a wrong one, so without this
// check the solve would quietly return an empty state instead of an error.
#[test]
fn a_solve_of_an_unbaked_document_is_refused() {
    let mut terrain =
        TerrainSpec::new(UVec2::new(8, 8)).with_field(held(Layer::new("height"), 0.5));
    assert!(matches!(
        solve_document(&mut terrain, &WaterSpec::default()),
        Err(WaterError::UnbakedHeight(_))
    ));

    let mut empty = TerrainSpec::new(UVec2::splat(0));
    assert!(matches!(
        solve_document(&mut empty, &WaterSpec::default()),
        Err(WaterError::ZeroSize(0, 0))
    ));
}

// Every reader has to answer on an empty state, because that is what a document
// holds between an invalidation and the next solve.
#[test]
fn an_empty_height_raster_solves_to_nothing() {
    let state = WaterState::solve(&Raster::empty(), WaterParts::none(), 4);
    assert!(state.is_empty());
    assert_eq!(state.lakes(), 0);
    assert!(flow_vector(&state, 0, 0).is_none());
    assert_eq!(accumulation(&state, 0, 0), 0.0);
}

// A part that is not exactly as long as the raster leaves nothing solved.
#[test]
fn a_part_of_another_length_solves_to_nothing() {
    let height = bowl(UVec2::new(5, 5));
    let state = solve(&height, &[1.0; 24], 4);
    assert!(state.is_empty());
    assert!(state.depth_at(0, 0).is_none());
    assert!(state.downstream(0, 0).is_none());
}

// Following the water from any cell ends at one that drains nowhere.
#[test]
fn every_flow_path_ends_at_a_sink() {
    let size = UVec2::new(23, 19);
    let state = solved(&raster_from(size, |x, y| ((x * 5 + y * 3) % 7) as f32 * 0.1));
    for y in 0..size.y {
        for x in 0..size.x {
            let mut at = UVec2::new(x, y);
            let mut steps = 0;
            while let Some(next) = state.downstream(at.x, at.y) {
                at = next;
                steps += 1;
                assert!(steps <= size.x * size.y);
            }
            assert_eq!(state.flow_dir().get(at.x, at.y), Some(&0));
        }
    }
}

// Lake ids run from one to the number of lakes, one for each body of water.
#[test]
fn lake_ids_run_to_the_number_of_lakes() {
    let size = UVec2::new(9, 5);
    let height = raster_from(size, |x, y| {
        if (y == 2 || y == 3) && (x == 2 || x == 6) { 0.0 } else { 1.0 }
    });
    let state = solve(&height, &unit_weights(size), 2);
    assert_eq!(state.lakes(), 2);
    assert_eq!(state.lake_id().get(2, 2), Some(&1));
    assert_eq!(state.lake_id().get(2, 3), Some(&1));
    assert_eq!(state.lake_id().get(6, 3), Some(&2));
    assert_eq!(depth(&state, 6, 2), 1.0);
    let filled = fill(&height).filled;
    let (labels, lakes) = label_lakes(&filled, &height.data, 9, 5, 3);
    assert_eq!(lakes, 0);
    assert!(labels.iter().all(|label| *label == 0));
}

// Outside the extent nothing reaches a cell, whatever the threshold.
#[test]
fn nothing_is_a_channel_outside_the_extent() {
    let state = solved(&bowl(UVec2::new(5, 5)));
    assert!(state.channel(0, 0, 0));
    assert!(!state.channel(5, 0, 0));
    assert!(!state.channel(0, 5, 0));
    assert_eq!(state.accumulation_code(5, 5), 0);
    assert_eq!(state.flow_accum().data.len(), 25);
}

// Every refusal has its own words.
#[test]
fn every_refusal_of_a_solve_says_what_was_wrong() {
    let errors = [
        WaterError::ZeroSize(0, 16),
        WaterError::UnknownHeightField("height".to_owned()),
        WaterError::UnknownMoistureField("wet".to_owned()),
        WaterError::CoarseHeight("height".to_owned(), 2),
        WaterError::UnbakedHeight("height".to_owned()),
    ];
    let messages: Vec<String> = errors.iter().map(|error| error.message()).collect();
    assert_eq!(messages[0], "terrain size has a zero component: 0 by 16");
    assert_eq!(messages[1], "height field `height` is not in the document");
    assert_eq!(messages[2], "moisture field `wet` is not in the document");
    assert!(messages[3].contains('2'));
    for (index, message) in messages.iter().enumerate() {
        assert!(messages[index + 1..].iter().all(|other| other != message));
    }
}

// A spec names its fields and its threshold.
#[test]
fn a_water_spec_is_what_its_builders_say() {
    let spec = WaterSpec::new("ground").with_lake_min_cells(9);
    assert_eq!(spec.height.as_str(), "ground");
    assert!(spec.moisture.is_none());
    assert_eq!(spec.lake_min_cells, 9);
    assert_eq!(WaterSpec::default().height.as_str(), "height");
    assert_eq!(WaterSpec::default().lake_min_cells, 64);
}

// Water is followed to the edge from anywhere, without coming back to a cell.
#[test]
fn all_water_reaches_the_edge() {
    let size = UVec2::new(23, 19);
    let height = raster_from(size, |x, y| {
        let (u, v) = (x as f32 * 0.7, y as f32 * 0.9);
        (u.sin() * v.cos() + (u * 0.3).cos()) * 0.5
    });
    let state = solved(&height);
    for y in 0..size.y {
        for x in 0..size.x {
            let (mut at, mut steps) = (UVec2::new(x, y), 0);
            while let Some(next) = state.downstream(at.x, at.y) {
                assert!(next != at && next.x.abs_diff(at.x) <= 1 && next.y.abs_diff(at.y) <= 1);
                at = next;
                steps += 1;
                assert!(steps < size.x * size.y);
            }
            let edge = at.x == 0 || at.y == 0 || at.x + 1 == size.x || at.y + 1 == size.y;
            assert!(edge, "water of {x},{y} stops inland at {},{}", at.x, at.y);
        }
    }
    assert_eq!(state.downstream(size.x, 0), None);
}
