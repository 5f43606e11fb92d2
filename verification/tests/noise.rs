//! Noise: the lattice, where fields are read from it, and what they read.

use watershed_editor::noise::{
    domain_offset, hash2, sub_seed, tiled, Noise, NoiseField, NoiseKind, NoiseSource, NoiseSpec,
    Offset, RidgedNoiseField, SampleTransform, SignedNoiseField, TilingNoiseField, Warp, WarpSpec,
    NOISE_OCTAVES,
};
use watershed_editor::single::Single;

const NOISE_GAIN: f32 = 2.6;
const RIDGE_GAIN: f32 = 2.0;

fn single(value: f32) -> Single {
    Single(value.to_bits())
}

fn number(value: Single) -> f32 {
    f32::from_bits(value.0)
}

fn origin(offset: Offset) -> (f32, f32) {
    (offset.x as f32 / 64.0, offset.y as f32 / 64.0)
}

fn gradient_noise_with(x: f32, y: f32, point: impl Fn(i32) -> i32) -> f32 {
    let (left, top) = (x.floor() as i32, y.floor() as i32);
    let (across, down) = (x - left as f32, y - top as f32);
    let pull = |ix: i32, iy: i32, dx: f32, dy: f32| {
        let angle = (hash2(point(ix), point(iy)) as f32 / u32::MAX as f32) * std::f32::consts::TAU;
        angle.cos() * dx + angle.sin() * dy
    };
    let fade = |t: f32| t * t * t * (t * (t * 6.0 - 15.0) + 10.0);
    let lerp = |a: f32, b: f32, t: f32| a + t * (b - a);
    let upper = lerp(
        pull(left, top, across, down),
        pull(left + 1, top, across - 1.0, down),
        fade(across),
    );
    let lower = lerp(
        pull(left, top + 1, across, down - 1.0),
        pull(left + 1, top + 1, across - 1.0, down - 1.0),
        fade(across),
    );
    lerp(upper, lower, fade(down))
}

fn gradient_noise_2d(x: f32, y: f32) -> f32 {
    gradient_noise_with(x, y, |at| at)
}

fn octaves_of(octaves: u32, reading: impl Fn(f32) -> f32) -> f32 {
    let (mut total, mut amplitude, mut frequency, mut most) = (0.0, 1.0, 1.0, 0.0);
    for _ in 0..octaves {
        total += reading(frequency) * amplitude;
        most += amplitude;
        amplitude *= 0.5;
        frequency *= 2.0;
    }
    total / most
}

fn summed(offset: Offset, scale: Single, octaves: u32, x: f32, y: f32) -> f32 {
    let (ox, oy) = origin(offset);
    let (x, y) = (x * number(scale) + ox, y * number(scale) + oy);
    octaves_of(octaves, |frequency| gradient_noise_2d(x * frequency, y * frequency))
}

fn sample_field(field: &NoiseField, x: f32, y: f32) -> f32 {
    let sum = summed(field.offset, field.scale, field.octaves, x, y);
    (0.5 + sum * NOISE_GAIN * 0.5).clamp(0.0, 1.0)
}

fn sample_signed(field: &SignedNoiseField, x: f32, y: f32) -> f32 {
    (summed(field.offset, field.scale, field.octaves, x, y) * NOISE_GAIN).clamp(-1.0, 1.0)
}

fn sample_ridged(field: &RidgedNoiseField, x: f32, y: f32) -> f32 {
    let (ox, oy) = origin(field.offset);
    let (x, y) = (x * number(field.scale) + ox, y * number(field.scale) + oy);
    octaves_of(field.octaves, |frequency| {
        let noise = gradient_noise_2d(x * frequency, y * frequency);
        let crease = (1.0 - (noise * RIDGE_GAIN).abs()).max(0.0);
        crease * crease
    })
}

fn sample_tiling(field: &TilingNoiseField, u: f32, v: f32) -> f32 {
    let (ox, oy) = origin(field.offset);
    let (u, v) = (u + ox, v + oy);
    let sum = octaves_of(field.octaves, |frequency| {
        let period = (field.period as f32 * frequency) as i32;
        gradient_noise_with(u * frequency, v * frequency, |at| tiled(at, period))
    });
    (0.5 + sum * NOISE_GAIN * 0.5).clamp(0.0, 1.0)
}

fn warped(warp: &Warp, x: f32, y: f32) -> (f32, f32) {
    let reach = 2.0 * number(warp.amplitude);
    (
        x + (sample_field(&warp.x, x, y) - 0.5) * reach,
        y + (sample_field(&warp.y, x, y) - 0.5) * reach,
    )
}

fn stretched(strike_degrees: Single, aspect: Single, x: f32, y: f32) -> (f32, f32) {
    let (sin, cos) = number(strike_degrees).to_radians().sin_cos();
    (x * cos + y * sin, (-x * sin + y * cos) / number(aspect))
}

fn sample(noise: &Noise, x: f32, y: f32) -> f32 {
    let (x, y) = match &noise.warp {
        Some(warp) => warped(warp, x, y),
        None => (x, y),
    };
    let (x, y) = stretched(noise.strike_degrees, noise.aspect, x, y);
    match &noise.source {
        NoiseSource::Fbm(field) => sample_field(field, x, y),
        NoiseSource::Signed(field) => sample_signed(field, x, y),
        NoiseSource::Ridged(field) => sample_ridged(field, x, y),
    }
}

// The seam is the whole reason the field exists: the weather overlay bakes one
// period into a texture and scrolls it forever, so a discontinuity at the wrap
// would be a line marching across the sky.
#[test]
fn a_tiling_field_matches_itself_across_the_seam() {
    let field = TilingNoiseField::new(0x5eed, 8, 4);
    let period = 8.0;

    for i in 0..64 {
        let t = i as f32 / 64.0 * period;
        for (u, v) in [(t, 1.7), (1.7, t), (t, t)] {
            let here = sample_tiling(&field, u, v);
            let there = sample_tiling(&field, u + period, v + period);
            assert!((here - there).abs() < 1e-5, "the field does not repeat at ({u}, {v})");
        }
    }
}

// Wrapping the lattice must not flatten the field into a constant: a tiling
// field that is all one value would also match across the seam.
#[test]
fn a_tiling_field_still_varies_across_its_period() {
    let field = TilingNoiseField::new(0x5eed, 8, 4);
    let samples: Vec<f32> = (0..64)
        .map(|i| sample_tiling(&field, i as f32 / 8.0, 3.25))
        .collect();
    let min = samples.iter().copied().fold(f32::MAX, f32::min);
    let max = samples.iter().copied().fold(f32::MIN, f32::max);
    assert!(max - min > 0.2, "a tiling field spanning only {min}..{max}");
}

// The whole crate is a pure function of this hash, so these literals are the
// file format's real compatibility surface: changing any of them silently
// re-generates every world already on disk rather than failing to load it.
#[test]
fn the_lattice_hands_back_the_numbers_it_always_has() {
    assert_eq!(hash2(0, 0), 0x0000_0000);
    assert_eq!(hash2(1, 0), 0x80f5_75f2);
    assert_eq!(hash2(0, 1), 0x0c5c_9f25);
    assert_eq!(hash2(-7, 13), 0xfc22_0e42);

    let expected = [
        (0.0_f32, 0.0_f32, 0.0_f32),
        (0.5, 0.0, 0.499_930_77),
        (0.25, 0.75, 0.221_791_15),
        (12.5, -3.25, -0.105_630_64),
    ];
    for (x, y, want) in expected {
        let got = gradient_noise_2d(x, y);
        assert!(
            (got - want).abs() < 1e-6,
            "gradient noise at ({x}, {y}) is {got}, was {want}"
        );
    }
}

// A document written before the salt existed reads with a salt of zero, so zero has to
// keep meaning exactly what a bare seed meant: otherwise every terrain already saved to
// disk bakes into a different landscape.
#[test]
fn an_unsalted_field_samples_where_a_bare_seed_always_put_it() {
    let seed: u32 = 0xc0ff_ee01;
    let hash = hash2(seed as i32, 0);
    assert_eq!(
        origin(domain_offset(seed, 0)),
        ((hash & 0xffff) as f32 / 64.0, (hash >> 16) as f32 / 64.0)
    );
    assert_eq!(NoiseSpec::new(seed, NoiseKind::Fbm, single(0.01)).salt, 0);
}

// The salt is what lets one seed own a whole document's worth of fields that
// are independent of each other rather than views of one landscape.
#[test]
fn two_salts_off_one_seed_do_not_sample_the_same_landscape() {
    let seed = 0xc0ff_ee01;
    let plain = NoiseSpec::new(seed, NoiseKind::Fbm, single(0.01));
    let one = Noise::new(&plain.with_salt(0x0000_0001));
    let two = Noise::new(&plain.with_salt(0x9e37_79b9));
    let differing = (0..256)
        .filter(|i| {
            let x = *i as f32 * 3.0;
            (sample(&one, x, 17.0) - sample(&two, x, 17.0)).abs() > 1e-3
        })
        .count();
    assert!(
        differing > 200,
        "only {differing} of 256 samples differ between two salts"
    );
}

// A warp that names its salts must place its two component fields where those
// salts put them, not where `sub_seed` would have.
#[test]
fn a_salted_warp_moves_a_position_somewhere_a_sub_seeded_one_does_not() {
    let base = WarpSpec {
        seed: 0x5eed_0036,
        amplitude: single(160.0),
        scale: single(1.0 / 288.0),
        octaves: 3,
        salts: None,
    };
    let salted = WarpSpec { salts: Some((0x7a1d_0b37, 0x9c3f_1102)), ..base };
    let unsalted = Warp::new(&base);
    let salted = Warp::new(&salted);
    let differing = (0..256)
        .filter(|i| {
            let (x, y) = (*i as f32 * 13.0, 91.0);
            let (a, b) = (warped(&unsalted, x, y), warped(&salted, x, y));
            (a.0 - b.0).hypot(a.1 - b.1) > 1.0
        })
        .count();
    assert!(
        differing > 200,
        "only {differing} of 256 positions warp differently"
    );
}

// Reproducibility is what a seed is for, and the transform and the warp are the
// two stages with state of their own: either caching a value across
// construction would break it.
#[test]
fn a_field_built_twice_from_one_seed_samples_the_same_both_times() {
    let spec = NoiseSpec::new(0xc0ff_ee01, NoiseKind::Fbm, single(0.01))
        .with_transform(SampleTransform { strike_degrees: single(24.0), aspect: single(6.0) })
        .with_warp(WarpSpec {
            seed: 0x1234_5678,
            amplitude: single(40.0),
            scale: single(0.004),
            octaves: 3,
            salts: None,
        });
    let one = Noise::new(&spec);
    let two = Noise::new(&spec);
    assert_eq!(one, two);

    for i in 0..128 {
        let x = i as f32 * 7.5 - 400.0;
        let y = i as f32 * -3.25 + 90.0;
        assert_eq!(sample(&one, x, y), sample(&two, x, y));
    }
}

// The other half of what a seed is for. A hash that mixed its arguments too
// weakly would still be reproducible and would still pass every test above.
#[test]
fn two_seeds_do_not_sample_the_same_landscape() {
    let one = Noise::new(&NoiseSpec::new(1, NoiseKind::Fbm, single(0.01)));
    let two = Noise::new(&NoiseSpec::new(2, NoiseKind::Fbm, single(0.01)));
    let differing = (0..256)
        .filter(|i| {
            let x = *i as f32 * 3.0;
            (sample(&one, x, 17.0) - sample(&two, x, 17.0)).abs() > 1e-3
        })
        .count();
    assert!(
        differing > 200,
        "only {differing} of 256 samples differ between two seeds"
    );
}

// Every unstretched field goes through the transform anyway, so an error in the rotation
// would move fields nobody configured.
#[test]
fn an_identity_transform_leaves_a_position_where_it_found_it() {
    let identity = SampleTransform::identity();
    for (x, y) in [(0.0, 0.0), (13.5, -2.25), (-800.0, 640.0)] {
        let moved = stretched(identity.strike_degrees, identity.elongation(), x, y);
        assert!((moved.0 - x).abs() < 1e-4 && (moved.1 - y).abs() < 1e-4);
    }
}

// Pins which way round the strike runs: the bands come out perpendicular to it.
#[test]
fn a_stretched_field_holds_its_value_along_the_bands_it_makes() {
    let strike_degrees = 24.0_f32;
    let spec = NoiseSpec::new(0xba5e_1a11, NoiseKind::Fbm, single(0.006)).with_transform(
        SampleTransform { strike_degrees: single(strike_degrees), aspect: single(6.0) },
    );
    let noise = Noise::new(&spec);

    let (sin, cos) = strike_degrees.to_radians().sin_cos();
    let walk = |direction: (f32, f32)| -> f32 {
        let mut total = 0.0;
        let mut previous = sample(&noise, 0.0, 0.0);
        for step in 1..=200 {
            let far = step as f32 * 2.0;
            let current = sample(&noise, direction.0 * far, direction.1 * far);
            total += (current - previous).abs();
            previous = current;
        }
        total
    };

    let along_change = walk((-sin, cos));
    let across_change = walk((cos, sin));
    assert!(
        across_change > along_change * 3.0,
        "change across the bands {across_change} is not much more than along them {along_change}"
    );
}

// The amplitude is a bound callers rely on to know how far outside a rectangle a
// warped bake has to read.
#[test]
fn a_warp_moves_a_position_no_further_than_its_amplitude() {
    let amplitude = 160.0;
    let warp = Warp::new(&WarpSpec {
        seed: 0xfeed_face,
        amplitude: single(amplitude),
        scale: single(0.0035),
        octaves: 3,
        salts: None,
    });
    for i in 0..256 {
        let (x, y) = (i as f32 * 11.0 - 1000.0, i as f32 * -6.0 + 500.0);
        let moved = warped(&warp, x, y);
        assert!(
            (moved.0 - x).abs() <= amplitude + 1e-3 && (moved.1 - y).abs() <= amplitude + 1e-3,
            "a warp of amplitude {amplitude} moved ({x}, {y}) to {moved:?}"
        );
    }
}

// A warp that only translates a region bodily leaves every edge exactly as
// straight as it found it.
#[test]
fn a_warp_displaces_nearby_positions_differently() {
    let scale = 0.0035_f32;
    let warp = Warp::new(&WarpSpec {
        seed: 0xfeed_face,
        amplitude: single(160.0),
        scale: single(scale),
        octaves: 3,
        salts: None,
    });
    let step = 1.0 / scale / 8.0;

    let spread = (0..64)
        .map(|i| {
            let x = i as f32 * step;
            warped(&warp, x, 0.0).0 - x
        })
        .fold((f32::MAX, f32::MIN), |(min, max), d| (min.min(d), max.max(d)));
    assert!(
        spread.1 - spread.0 > 20.0,
        "the warp displaces a whole span by nearly the same amount: {spread:?}"
    );
}

// A warp built but never applied leaves the field intact and fails silently.
#[test]
fn a_warped_field_is_not_the_field_it_warped() {
    let plain = NoiseSpec::new(0x51de_51de, NoiseKind::Fbm, single(0.006));
    let bent = plain.with_warp(WarpSpec {
        seed: 0x7a1d_0b37,
        amplitude: single(160.0),
        scale: single(0.0035),
        octaves: 3,
        salts: None,
    });
    let plain = Noise::new(&plain);
    let bent = Noise::new(&bent);

    let differing = (0..256)
        .filter(|i| {
            let x = *i as f32 * 9.0;
            (sample(&plain, x, 40.0) - sample(&bent, x, 40.0)).abs() > 1e-3
        })
        .count();
    assert!(differing > 200, "the warp changed only {differing} of 256");
}

// Callers add a ridged field rather than blending it, so a negative sample
// would carve holes where it was meant to raise mountains.
#[test]
fn a_ridged_field_never_falls_below_the_ground_it_is_added_to() {
    let noise = Noise::new(&NoiseSpec::new(0xa11e, NoiseKind::Ridged, single(0.02)));
    for i in 0..512 {
        let x = i as f32 * 3.5;
        let value = sample(&noise, x, x * 0.5);
        assert!(
            (0.0..=1.0).contains(&value),
            "a ridged field sampled {value} at ({x}, {})",
            x * 0.5
        );
    }
}

// A signed field is useful only if its sign actually reverses.
#[test]
fn a_signed_field_leans_both_ways() {
    let noise =
        Noise::new(&NoiseSpec::new(0x1ea5, NoiseKind::Signed, single(0.01)).with_octaves(2));
    let samples: Vec<f32> = (0..512)
        .map(|i| sample(&noise, i as f32 * 4.0, 11.0))
        .collect();
    assert!(samples.iter().any(|v| *v > 0.05), "never leans positive");
    assert!(samples.iter().any(|v| *v < -0.05), "never leans negative");
    assert!(
        samples.iter().all(|v| (-1.0..=1.0).contains(v)),
        "a signed field left [-1, 1]"
    );
}

// A sub-seed is a hash one step along, so those of one seed differ from each other.
#[test]
fn the_sub_seeds_of_one_seed_differ() {
    assert_eq!(sub_seed(7, 0), hash2(7, 1));
    assert_eq!(sub_seed(7, u32::MAX), hash2(7, 0));
    for index in 1..64 {
        assert_ne!(sub_seed(7, 0), sub_seed(7, index));
    }
}

// A tiling field reads the same lattice point every period, below zero too.
#[test]
fn a_lattice_point_repeats_every_period() {
    assert_eq!(tiled(-1, 8), 7);
    assert_eq!(tiled(8, 8), 0);
    assert_eq!(tiled(i32::MIN, 8), 0);
    for at in -20..20 {
        assert_eq!(tiled(at, 8), tiled(at + 8, 8));
    }
}

// A field made with no octaves named has five, and an elongation below one is raised to it.
#[test]
fn a_field_has_the_octaves_and_the_elongation_it_is_given() {
    assert_eq!(NoiseField::new(1, 2, single(0.5)).octaves, NOISE_OCTAVES);
    assert_eq!(NOISE_OCTAVES, 5);
    let narrow = SampleTransform { strike_degrees: single(0.0), aspect: single(0.25) };
    assert_eq!(narrow.elongation(), single(1.0));
    assert_eq!(SampleTransform::default(), SampleTransform::identity());
}
