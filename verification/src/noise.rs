//! The lattice that gradient noise is read from, and the fields described over it.
//!
//! The world is a pure function of position: every field's lattice and every place it is
//! read at come off one hash of two integers.

use vstd::prelude::*;
use vstd::arithmetic::div_mod::*;
use vstd::arithmetic::power2::pow2;
use crate::layer::UNIT;
use crate::single::Single;

verus! {

/// Octaves where nothing says otherwise.
pub const NOISE_OCTAVES: u32 = 5;

/// A product, keeping the low thirty-two bits.
pub open spec fn times(a: u32, b: u32) -> u32 {
    ((a * b) % 0x1_0000_0000) as u32
}

/// A sum, keeping the low thirty-two bits.
pub open spec fn plus(a: u32, b: u32) -> u32 {
    ((a + b) % 0x1_0000_0000) as u32
}

/// The thirty-two bits of a signed number, as an unsigned one.
pub open spec fn bits_of(value: i32) -> u32 {
    if value < 0 {
        (value + 0x1_0000_0000) as u32
    } else {
        value as u32
    }
}

/// A word mixed with itself, moved down by some bits.
pub open spec fn folded(word: u32, by: u32) -> u32 {
    word ^ (word >> by)
}

/// The hash of two words.
pub open spec fn hashed(x: u32, y: u32) -> u32 {
    let first = times(x, 0x27d4_eb2d) ^ times(y, 0x1656_67b1);
    let second = times(folded(first, 15), 0x85eb_ca6b);
    let third = times(folded(second, 13), 0xc2b2_ae35);
    folded(third, 16)
}

/// The one hash: a pure function of two integers, the same on every platform and in every
/// build.
///
/// Every field's lattice and every domain offset comes off this, so its exact output is part
/// of what a saved document means: changing it re-generates every world already on disk.
pub fn hash2(x: i32, y: i32) -> (hash: u32)
    ensures
        hash == hashed(bits_of(x), bits_of(y)),
{
    proof {
        assert(x < 0 ==> x as u32 == x + 0x1_0000_0000) by (bit_vector);
        assert(y < 0 ==> y as u32 == y + 0x1_0000_0000) by (bit_vector);
    }
    hash_words(x as u32, y as u32)
}

/// The hash of two words.
fn hash_words(x: u32, y: u32) -> (hash: u32)
    ensures
        hash == hashed(x, y),
{
    let mut h: u32 = x.wrapping_mul(0x27d4_eb2d);
    h = h ^ y.wrapping_mul(0x1656_67b1);
    h = h ^ (h >> 15);
    h = h.wrapping_mul(0x85eb_ca6b);
    h = h ^ (h >> 13);
    h = h.wrapping_mul(0xc2b2_ae35);
    h ^ (h >> 16)
}

/// A seed derived from `seed` and `index`, for a caller that needs several independent fields
/// but was given one seed.
///
/// Distinct indices give unrelated fields. `index` is offset before hashing, so the first
/// sub-seed of a seed is not where an unsalted field of that seed lands.
pub fn sub_seed(seed: u32, index: u32) -> (derived: u32)
    ensures
        derived == hashed(seed, plus(index, 1)),
{
    hash_words(seed, index.wrapping_add(1))
}

/// Multiplying by a word that has an inverse loses nothing.
proof fn lemma_times_undone(a: u32, factor: u32, inverse: u32)
    requires
        (factor * inverse) % 0x1_0000_0000 == 1,
    ensures
        times(times(a, factor), inverse) == a,
{
    let m = 0x1_0000_0000int;
    lemma_mul_mod_noop_left(a * factor, inverse as int, m);
    assert((a * factor) * inverse == a * (factor * inverse)) by (nonlinear_arith);
    lemma_mul_mod_noop_right(a as int, factor * inverse, m);
    assert(a * 1 == a);
    lemma_small_mod(a as nat, 0x1_0000_0000);
}

proof fn lemma_unfold_15(word: u32)
    ensures
        ({
            let f = folded(word, 15);
            word == f ^ (f >> 15) ^ (f >> 30)
        }),
{
    let f = folded(word, 15);
    assert(word == f ^ (f >> 15) ^ (f >> 30)) by (bit_vector)
        requires
            f == word ^ (word >> 15),
    ;
}

proof fn lemma_unfold_13(word: u32)
    ensures
        ({
            let f = folded(word, 13);
            word == f ^ (f >> 13) ^ (f >> 26)
        }),
{
    let f = folded(word, 13);
    assert(word == f ^ (f >> 13) ^ (f >> 26)) by (bit_vector)
        requires
            f == word ^ (word >> 13),
    ;
}

proof fn lemma_unfold_16(word: u32)
    ensures
        ({
            let f = folded(word, 16);
            word == f ^ (f >> 16)
        }),
{
    let f = folded(word, 16);
    assert(word == f ^ (f >> 16)) by (bit_vector)
        requires
            f == word ^ (word >> 16),
    ;
}

/// What the hash makes of the first mix of its words, before the last three rounds.
proof fn lemma_rounds_lose_nothing(a: u32, b: u32)
    requires
        ({
            let one = times(folded(times(folded(a, 15), 0x85eb_ca6b), 13), 0xc2b2_ae35);
            let other = times(folded(times(folded(b, 15), 0x85eb_ca6b), 13), 0xc2b2_ae35);
            folded(one, 16) == folded(other, 16)
        }),
    ensures
        a == b,
{
    let a1 = times(folded(a, 15), 0x85eb_ca6b);
    let b1 = times(folded(b, 15), 0x85eb_ca6b);
    let a2 = times(folded(a1, 13), 0xc2b2_ae35);
    let b2 = times(folded(b1, 13), 0xc2b2_ae35);
    lemma_unfold_16(a2);
    lemma_unfold_16(b2);
    lemma_times_undone(folded(a1, 13), 0xc2b2_ae35, 0x7ed1_b41d);
    lemma_times_undone(folded(b1, 13), 0xc2b2_ae35, 0x7ed1_b41d);
    lemma_unfold_13(a1);
    lemma_unfold_13(b1);
    lemma_times_undone(folded(a, 15), 0x85eb_ca6b, 0xa5cb_9243);
    lemma_times_undone(folded(b, 15), 0x85eb_ca6b, 0xa5cb_9243);
    lemma_unfold_15(a);
    lemma_unfold_15(b);
}

/// Along one row or one column of the lattice no two points have the same hash.
pub proof fn law_a_line_of_the_lattice_never_repeats(x: u32, y: u32, other: u32)
    ensures
        hashed(x, y) == hashed(x, other) ==> y == other,
        hashed(x, y) == hashed(other, y) ==> x == other,
{
    let p = times(x, 0x27d4_eb2d);
    let q = times(y, 0x1656_67b1);
    if hashed(x, y) == hashed(x, other) {
        let r = times(other, 0x1656_67b1);
        lemma_rounds_lose_nothing(p ^ q, p ^ r);
        assert(q == r) by (bit_vector)
            requires
                p ^ q == p ^ r,
        ;
        lemma_times_undone(y, 0x1656_67b1, 0xae39_8151);
        lemma_times_undone(other, 0x1656_67b1, 0xae39_8151);
    }
    if hashed(x, y) == hashed(other, y) {
        let r = times(other, 0x27d4_eb2d);
        lemma_rounds_lose_nothing(p ^ q, r ^ q);
        assert(p == r) by (bit_vector)
            requires
                p ^ q == r ^ q,
        ;
        lemma_times_undone(x, 0x27d4_eb2d, 0xfb69_9ca5);
        lemma_times_undone(other, 0x27d4_eb2d, 0xfb69_9ca5);
    }
}

/// Two indices of one seed never give the same sub-seed, and the first sub-seed is not the
/// hash of the seed alone.
pub proof fn law_sub_seeds_of_one_seed_differ(seed: u32, index: u32, other: u32)
    ensures
        hashed(seed, plus(index, 1)) == hashed(seed, plus(other, 1)) ==> index == other,
        hashed(seed, plus(0, 1)) != hashed(seed, 0),
{
    law_a_line_of_the_lattice_never_repeats(seed, plus(index, 1), plus(other, 1));
    law_a_line_of_the_lattice_never_repeats(seed, plus(0, 1), 0);
    if index == u32::MAX || other == u32::MAX {
        assert(0x1_0000_0000int % 0x1_0000_0000 == 0);
    }
    if index < u32::MAX {
        lemma_small_mod((index + 1) as nat, 0x1_0000_0000);
    }
    if other < u32::MAX {
        lemma_small_mod((other + 1) as nat, 0x1_0000_0000);
    }
}

/// Where a field is read from: how far each axis is moved, in sixty-fourths.
#[derive(Clone, Copy, Debug, PartialEq, Eq, Structural)]
pub struct Offset {
    /// Along the first axis.
    pub x: u32,
    /// Along the second axis.
    pub y: u32,
}

/// The two halves of the hash of a seed and a salt.
pub open spec fn offset_of(seed: u32, salt: u32) -> Offset {
    let h = hashed(seed, salt);
    Offset { x: (h % 0x1_0000) as u32, y: (h / 0x1_0000) as u32 }
}

/// Where the field of a seed and a salt is read from.
pub fn domain_offset(seed: u32, salt: u32) -> (offset: Offset)
    ensures
        offset == offset_of(seed, salt),
{
    let h: u32 = hash_words(seed, salt);
    Offset { x: h % 0x1_0000, y: h / 0x1_0000 }
}

/// The lattice point that a point of a field repeating every `period` points reads.
pub fn tiled(at: i32, period: i32) -> (point: i32)
    requires
        period > 0,
    ensures
        point == at as int % period as int,
        0 <= point < period,
{
    if at >= 0 {
        at % period
    } else {
        let short: i64 = (-(at as i64)) % period as i64;
        proof {
            let a = at as int;
            let p = period as int;
            let q = (-a) / p;
            lemma_fundamental_div_mod(-a, p);
            assert(p * (-q) == -(p * q)) by (nonlinear_arith);
            assert((-q) * p == -(p * q)) by (nonlinear_arith);
            assert((-q - 1) * p == -(p * q) - p) by (nonlinear_arith);
            if short == 0 {
                lemma_fundamental_div_mod_converse(a, p, -q, 0);
            } else {
                lemma_fundamental_div_mod_converse(a, p, -q - 1, p - short);
            }
        }
        if short == 0 {
            0
        } else {
            (period as i64 - short) as i32
        }
    }
}

/// A field that repeats reads the same lattice point one period on.
pub proof fn law_a_tiling_field_repeats(at: int, period: int)
    requires
        period > 0,
    ensures
        (at + period) % period == at % period,
{
    lemma_mod_add_multiples_vanish(at, period);
    assert(at + period == period + at);
}

/// One field with its own domain offset, so two fields sampled at the same position are
/// independent rather than two views of the same landscape.
#[derive(Clone, Copy, Debug, PartialEq, Eq, Structural)]
pub struct NoiseField {
    /// Where the field is read from.
    pub offset: Offset,
    /// Multiplies the position; a smaller scale means larger features.
    pub scale: Single,
    /// Octaves summed.
    pub octaves: u32,
}

impl NoiseField {
    /// A field at the default octave count. `scale` multiplies the position, so a smaller
    /// scale means larger features.
    pub fn new(seed: u32, salt: u32, scale: Single) -> (field: NoiseField)
        ensures
            field == (NoiseField {
                offset: offset_of(seed, salt),
                scale,
                octaves: NOISE_OCTAVES,
            }),
    {
        NoiseField::with_octaves(seed, salt, scale, NOISE_OCTAVES)
    }

    /// A field with a chosen octave count.
    pub fn with_octaves(seed: u32, salt: u32, scale: Single, octaves: u32) -> (field: NoiseField)
        ensures
            field == (NoiseField { offset: offset_of(seed, salt), scale, octaves }),
    {
        NoiseField { offset: domain_offset(seed, salt), scale, octaves }
    }
}

/// The same octaves read as a signed displacement rather than as a height.
///
/// Deliberately few octaves: the value of the field is that its sign holds over a long run
/// and then reverses, and a fine octave only adds a wobble on top of that.
#[derive(Clone, Copy, Debug, PartialEq, Eq, Structural)]
pub struct SignedNoiseField {
    /// Where the field is read from.
    pub offset: Offset,
    /// Multiplies the position.
    pub scale: Single,
    /// Octaves summed.
    pub octaves: u32,
}

impl SignedNoiseField {
    /// The signed field of a seed and a salt.
    pub fn new(seed: u32, salt: u32, scale: Single, octaves: u32) -> (field: SignedNoiseField)
        ensures
            field == (SignedNoiseField { offset: offset_of(seed, salt), scale, octaves }),
    {
        SignedNoiseField { offset: domain_offset(seed, salt), scale, octaves }
    }
}

/// The same lattice read for its creases instead of its peaks: a ridged field is large where
/// the underlying noise crosses zero, so its maxima form connected lines rather than isolated
/// blobs.
#[derive(Clone, Copy, Debug, PartialEq, Eq, Structural)]
pub struct RidgedNoiseField {
    /// Where the field is read from.
    pub offset: Offset,
    /// Multiplies the position.
    pub scale: Single,
    /// Octaves summed.
    pub octaves: u32,
}

impl RidgedNoiseField {
    /// Two fields differing only in `salt` have unrelated ridge lines; two differing only in
    /// `scale` have the same lines at a different size.
    pub fn new(seed: u32, salt: u32, scale: Single, octaves: u32) -> (field: RidgedNoiseField)
        ensures
            field == (RidgedNoiseField { offset: offset_of(seed, salt), scale, octaves }),
    {
        RidgedNoiseField { offset: domain_offset(seed, salt), scale, octaves }
    }
}

/// One field that repeats exactly every `period` noise units in both axes.
#[derive(Clone, Copy, Debug, PartialEq, Eq, Structural)]
pub struct TilingNoiseField {
    /// Where the field is read from.
    pub offset: Offset,
    /// How far apart repetitions are.
    pub period: u32,
    /// Octaves summed.
    pub octaves: u32,
}

impl TilingNoiseField {
    /// `period` must be a power of two: every octave wraps at the period times its frequency,
    /// and frequencies double.
    pub fn new(seed: u32, period: u32, octaves: u32) -> (field: TilingNoiseField)
        requires
            exists|k: nat| #[trigger] pow2(k) == period,
        ensures
            field == (TilingNoiseField { offset: offset_of(seed, 0), period, octaves }),
    {
        TilingNoiseField { offset: domain_offset(seed, 0), period, octaves }
    }
}

/// A direction and an elongation, which is what turns a field of blobs into a field of bands.
#[derive(Clone, Copy, Debug, PartialEq, Eq, Structural)]
pub struct SampleTransform {
    /// The direction the field varies fastest in, in degrees counterclockwise from the x
    /// axis. The bands therefore run perpendicular to it.
    pub strike_degrees: Single,
    /// How many times further you must travel along a band to see it change as across it.
    /// One is isotropic; below one is raised to it.
    pub aspect: Single,
}

impl SampleTransform {
    /// No rotation and no elongation: the field is left exactly as it was.
    pub fn identity() -> (transform: SampleTransform)
        ensures
            transform == (SampleTransform { strike_degrees: Single(0), aspect: Single(UNIT) }),
    {
        SampleTransform { strike_degrees: Single(0), aspect: Single(UNIT) }
    }

    /// The elongation as it is applied. One below one is raised to it rather than being read
    /// as an elongation the other way, so the direction alone decides which way the bands run
    /// and the two settings cannot contradict each other.
    pub fn elongation(self) -> (aspect: Single)
        ensures
            aspect == self.aspect.larger(Single(UNIT)),
    {
        self.aspect.max(Single(UNIT))
    }
}

impl Default for SampleTransform {
    fn default() -> (transform: Self)
        ensures
            transform == (SampleTransform { strike_degrees: Single(0), aspect: Single(UNIT) }),
    {
        SampleTransform::identity()
    }
}

/// A displacement applied to a position before a field is sampled at it, which bends the
/// field's features instead of moving them.
#[derive(Clone, Copy, Debug, PartialEq, Eq)]
pub struct WarpSpec {
    /// Seed of the displacement, independent of the seed of the field it warps.
    pub seed: u32,
    /// Bound on the displacement, in the same units as the position.
    pub amplitude: Single,
    /// Scale of the displacement field.
    pub scale: Single,
    /// Octaves of the displacement field.
    pub octaves: u32,
    /// Salts for the two component fields, for a caller that must place them exactly. `None`
    /// derives both from `seed` via [`sub_seed`].
    pub salts: Option<(u32, u32)>,
}

/// A [`WarpSpec`] with its two component fields built: one per axis, because a single field
/// would displace both axes by the same amount at every position, which is a slide along the
/// diagonal rather than a warp.
#[derive(Clone, Copy, Debug, PartialEq, Eq, Structural)]
pub struct Warp {
    /// The displacement along the first axis.
    pub x: NoiseField,
    /// The displacement along the second axis.
    pub y: NoiseField,
    /// Bound on the displacement.
    pub amplitude: Single,
}

/// The two component fields of a warp.
pub open spec fn warp_of(spec: WarpSpec) -> Warp {
    let field = |offset: Offset| NoiseField { offset, scale: spec.scale, octaves: spec.octaves };
    match spec.salts {
        Some((x, y)) => Warp {
            x: field(offset_of(spec.seed, x)),
            y: field(offset_of(spec.seed, y)),
            amplitude: spec.amplitude,
        },
        None => Warp {
            x: field(offset_of(hashed(spec.seed, 1), 0)),
            y: field(offset_of(hashed(spec.seed, 2), 0)),
            amplitude: spec.amplitude,
        },
    }
}

impl Warp {
    /// Builds both component fields, from the spec's salts if it names them and from
    /// [`sub_seed`] of its seed otherwise.
    pub fn new(spec: &WarpSpec) -> (warp: Warp)
        ensures
            warp == warp_of(*spec),
    {
        match spec.salts {
            Some((x, y)) => Warp {
                x: NoiseField::with_octaves(spec.seed, x, spec.scale, spec.octaves),
                y: NoiseField::with_octaves(spec.seed, y, spec.scale, spec.octaves),
                amplitude: spec.amplitude,
            },
            None => Warp {
                x: NoiseField::with_octaves(sub_seed(spec.seed, 0), 0, spec.scale, spec.octaves),
                y: NoiseField::with_octaves(sub_seed(spec.seed, 1), 0, spec.scale, spec.octaves),
                amplitude: spec.amplitude,
            },
        }
    }
}

/// Which reading of the same lattice a [`NoiseSpec`] asks for. The three differ in the range
/// they hand back, so they are not interchangeable in a stack.
#[derive(Clone, Copy, Debug, PartialEq, Eq, Structural)]
pub enum NoiseKind {
    /// Summed octaves, stretched and remapped to zero through one. The general-purpose
    /// reading: a height, a wetness, a density.
    Fbm,
    /// The same sum in minus one through one, for a quantity whose natural zero is "neither
    /// way" rather than "lowest".
    Signed,
    /// The lattice read for its zero crossings, in zero through one and never negative. Its
    /// maxima form connected lines rather than isolated lumps.
    Ridged,
}

/// A complete description of one noise field: everything needed to reproduce it, and nothing
/// about what is done with the result.
#[derive(Clone, Copy, Debug, PartialEq, Eq)]
pub struct NoiseSpec {
    /// The document's seed. Two specs differing only here sample unrelated landscapes.
    pub seed: u32,
    /// Which reading of the lattice, and so which range the samples are in.
    pub kind: NoiseKind,
    /// Multiplies the position; a smaller scale gives larger features.
    pub scale: Single,
    /// Octaves summed. More refines the field rather than rescaling it.
    pub octaves: u32,
    /// Separates fields that share a seed, so one document seed can own as many independent
    /// fields as it has layers.
    pub salt: u32,
    /// Direction and elongation.
    pub transform: SampleTransform,
    /// Optional domain warp, applied to the position before the transform.
    pub warp: Option<WarpSpec>,
}

impl NoiseSpec {
    /// The default octave count, no salt, isotropic and unwarped.
    pub fn new(seed: u32, kind: NoiseKind, scale: Single) -> (spec: NoiseSpec)
        ensures
            spec == (NoiseSpec {
                seed,
                kind,
                scale,
                octaves: NOISE_OCTAVES,
                salt: 0,
                transform: SampleTransform { strike_degrees: Single(0), aspect: Single(UNIT) },
                warp: None,
            }),
    {
        NoiseSpec {
            seed,
            kind,
            scale,
            octaves: NOISE_OCTAVES,
            salt: 0,
            transform: SampleTransform::identity(),
            warp: None,
        }
    }

    /// Sets the octave count.
    pub fn with_octaves(self, octaves: u32) -> (spec: NoiseSpec)
        ensures
            spec == (NoiseSpec { octaves, ..self }),
    {
        NoiseSpec { octaves, ..self }
    }

    /// Sets the salt. A non-zero salt moves the field somewhere unrelated.
    pub fn with_salt(self, salt: u32) -> (spec: NoiseSpec)
        ensures
            spec == (NoiseSpec { salt, ..self }),
    {
        NoiseSpec { salt, ..self }
    }

    /// Sets the direction and elongation.
    pub fn with_transform(self, transform: SampleTransform) -> (spec: NoiseSpec)
        ensures
            spec == (NoiseSpec { transform, ..self }),
    {
        NoiseSpec { transform, ..self }
    }

    /// Sets the domain warp, replacing any already set.
    pub fn with_warp(self, warp: WarpSpec) -> (spec: NoiseSpec)
        ensures
            spec == (NoiseSpec { warp: Some(warp), ..self }),
    {
        NoiseSpec { warp: Some(warp), ..self }
    }
}

/// The field of a [`NoiseSpec`], in the reading the spec asks for.
#[derive(Clone, Copy, Debug, PartialEq, Eq, Structural)]
pub enum NoiseSource {
    /// Remapped to zero through one.
    Fbm(NoiseField),
    /// In minus one through one.
    Signed(SignedNoiseField),
    /// Read for its zero crossings.
    Ridged(RidgedNoiseField),
}

/// A [`NoiseSpec`] with its field and warp built, ready to sample.
#[derive(Clone, Copy, Debug, PartialEq, Eq, Structural)]
pub struct Noise {
    /// The field.
    pub source: NoiseSource,
    /// The direction the field varies fastest in, in degrees.
    pub strike_degrees: Single,
    /// The elongation as it is applied.
    pub aspect: Single,
    /// The warp.
    pub warp: Option<Warp>,
}

/// The field of a spec, read from where its seed and its salt put it.
pub open spec fn source_of(spec: NoiseSpec) -> NoiseSource {
    let offset = offset_of(spec.seed, spec.salt);
    let scale = spec.scale;
    let octaves = spec.octaves;
    match spec.kind {
        NoiseKind::Fbm => NoiseSource::Fbm(NoiseField { offset, scale, octaves }),
        NoiseKind::Signed => NoiseSource::Signed(SignedNoiseField { offset, scale, octaves }),
        NoiseKind::Ridged => NoiseSource::Ridged(RidgedNoiseField { offset, scale, octaves }),
    }
}

impl Noise {
    /// Builds from the spec. Two built from equal specs are equal, which is what makes a
    /// document reproducible.
    pub fn new(spec: &NoiseSpec) -> (noise: Noise)
        ensures
            noise == (Noise {
                source: source_of(*spec),
                strike_degrees: spec.transform.strike_degrees,
                aspect: spec.transform.aspect.larger(Single(UNIT)),
                warp: match spec.warp {
                    Some(warp) => Some(warp_of(warp)),
                    None => None,
                },
            }),
            spec.kind == NoiseKind::Fbm <==> noise.source is Fbm,
            spec.kind == NoiseKind::Signed <==> noise.source is Signed,
            spec.kind == NoiseKind::Ridged <==> noise.source is Ridged,
    {
        Noise {
            source: match spec.kind {
                NoiseKind::Fbm => NoiseSource::Fbm(
                    NoiseField::with_octaves(spec.seed, spec.salt, spec.scale, spec.octaves),
                ),
                NoiseKind::Signed => NoiseSource::Signed(
                    SignedNoiseField::new(spec.seed, spec.salt, spec.scale, spec.octaves),
                ),
                NoiseKind::Ridged => NoiseSource::Ridged(
                    RidgedNoiseField::new(spec.seed, spec.salt, spec.scale, spec.octaves),
                ),
            },
            strike_degrees: spec.transform.strike_degrees,
            aspect: spec.transform.elongation(),
            warp: match &spec.warp {
                Some(warp) => Some(Warp::new(warp)),
                None => None,
            },
        }
    }
}

/// The bits of a signed number are the number, counted round from the top where it is
/// negative.
pub proof fn law_bits_stand_for_the_number(value: i32)
    ensures
        value >= 0 ==> bits_of(value) == value,
        value < 0 ==> bits_of(value) - 0x1_0000_0000 == value,
{
}

/// A field is read from where the two halves of its hash put it: the lower half along the
/// first axis and the upper half along the second.
pub proof fn law_an_offset_is_the_two_halves_of_a_hash(seed: u32, salt: u32)
    ensures
        offset_of(seed, salt).x < 0x1_0000,
        offset_of(seed, salt).y < 0x1_0000,
        offset_of(seed, salt).x + 0x1_0000 * offset_of(seed, salt).y == hashed(seed, salt),
{
}

/// The field that is built is read the way its spec asks for.
pub proof fn law_the_reading_is_the_one_asked_for(spec: NoiseSpec)
    ensures
        spec.kind == NoiseKind::Fbm <==> source_of(spec) is Fbm,
        spec.kind == NoiseKind::Signed <==> source_of(spec) is Signed,
        spec.kind == NoiseKind::Ridged <==> source_of(spec) is Ridged,
{
}

/// A field has the scale and the octaves of its spec, and the way it is read does not move
/// it: two specs that differ in the reading alone have fields at the same place.
pub proof fn law_the_reading_does_not_move_the_field(spec: NoiseSpec)
    ensures
        ({
            let fbm = source_of(NoiseSpec { kind: NoiseKind::Fbm, ..spec });
            let signed = source_of(NoiseSpec { kind: NoiseKind::Signed, ..spec });
            let ridged = source_of(NoiseSpec { kind: NoiseKind::Ridged, ..spec });
            &&& fbm->Fbm_0.scale == spec.scale
            &&& signed->Signed_0.scale == spec.scale
            &&& ridged->Ridged_0.scale == spec.scale
            &&& fbm->Fbm_0.octaves == spec.octaves
            &&& signed->Signed_0.octaves == spec.octaves
            &&& ridged->Ridged_0.octaves == spec.octaves
            &&& fbm->Fbm_0.offset == signed->Signed_0.offset
            &&& signed->Signed_0.offset == ridged->Ridged_0.offset
            &&& ridged->Ridged_0.offset.x + 0x1_0000 * ridged->Ridged_0.offset.y == hashed(
                spec.seed,
                spec.salt,
            )
        }),
{
}

/// Each axis of a warp is displaced by a field of its own: the first by the field of the
/// first salt and the second by the field of the second, so exchanging the salts exchanges
/// the axes, and a warp keeps the amplitude, the scale and the octaves it is given.
pub proof fn law_each_axis_of_a_warp_has_its_own_salt(spec: WarpSpec, first: u32, second: u32)
    requires
        spec.salts == Some((first, second)),
    ensures
        ({
            let warp = warp_of(spec);
            let other = warp_of(WarpSpec { salts: Some((second, first)), ..spec });
            &&& warp.amplitude == spec.amplitude
            &&& warp.x.scale == spec.scale
            &&& warp.y.scale == spec.scale
            &&& warp.x.octaves == spec.octaves
            &&& warp.y.octaves == spec.octaves
            &&& other.x == warp.y
            &&& other.y == warp.x
            &&& warp.x.offset.x + 0x1_0000 * warp.x.offset.y == hashed(spec.seed, first)
            &&& warp.y.offset.x + 0x1_0000 * warp.y.offset.y == hashed(spec.seed, second)
        }),
{
}

/// A warp without salts of its own takes its two fields from the two first seeds derived
/// from its seed, which differ, so the axes are never displaced alike by one field.
pub proof fn law_a_warp_without_salts_derives_two_seeds(spec: WarpSpec)
    requires
        spec.salts is None,
    ensures
        ({
            let warp = warp_of(spec);
            &&& warp.amplitude == spec.amplitude
            &&& warp.x.scale == spec.scale
            &&& warp.y.scale == spec.scale
            &&& warp.x.octaves == spec.octaves
            &&& warp.y.octaves == spec.octaves
            &&& warp.x.offset.x + 0x1_0000 * warp.x.offset.y == hashed(hashed(spec.seed, 1), 0)
            &&& warp.y.offset.x + 0x1_0000 * warp.y.offset.y == hashed(hashed(spec.seed, 2), 0)
            &&& hashed(spec.seed, 1) != hashed(spec.seed, 2)
        }),
{
    law_sub_seeds_of_one_seed_differ(spec.seed, 0, 1);
}

} // verus!
