//! What holds of every single-precision number and of every word written as bytes.

use vstd::arithmetic::div_mod::lemma_fundamental_div_mod;
use vstd::arithmetic::power2::{lemma_pow2_pos, lemma_pow2_unfold, pow2};
use vstd::prelude::*;
use crate::single::{be_bytes, half_up, le_bytes, Single};

verus! {

/// Whether a number is another held between two ends, whichever of them is the lower: the
/// number itself between them, the end it lies beyond otherwise. What is no number is left as
/// it is.
pub open spec fn kept_between(value: Single, a: Single, b: Single, kept: Single) -> bool {
    if value.nan() {
        kept == value
    } else if value.rank() < a.rank() && value.rank() < b.rank() {
        (kept == a || kept == b) && kept.rank() <= a.rank() && kept.rank() <= b.rank()
    } else if value.rank() > a.rank() && value.rank() > b.rank() {
        (kept == a || kept == b) && kept.rank() >= a.rank() && kept.rank() >= b.rank()
    } else {
        kept == value
    }
}

/// The four bytes of a word written least significant first add up to the word, each
/// counting for two hundred and fifty six of the one before it; written most significant
/// first they are the same bytes the other way round.
pub proof fn law_the_bytes_of_a_word_spell_it(word: u32)
    ensures
        le_bytes(word).len() == 4,
        be_bytes(word).len() == 4,
        le_bytes(word)[0] + 0x100 * le_bytes(word)[1] + 0x1_0000 * le_bytes(word)[2] + 0x100_0000
            * le_bytes(word)[3] == word,
        0x100_0000 * be_bytes(word)[0] + 0x1_0000 * be_bytes(word)[1] + 0x100 * be_bytes(word)[2]
            + be_bytes(word)[3] == word,
{
}

/// A number held between two bounds in order is itself between them, and the bound it lies
/// beyond otherwise.
pub proof fn law_a_held_number_is_the_nearest_in_the_range(
    value: Single,
    low: Single,
    high: Single,
)
    requires
        !low.nan(),
        !high.nan(),
        low.rank() <= high.rank(),
    ensures
        kept_between(value, low, high, value.held(low, high)),
        kept_between(value, high, low, value.held(low, high)),
        !value.nan() ==> low.rank() <= value.held(low, high).rank() <= high.rank(),
{
}

/// The larger of two numbers is one of them, and neither is above it.
pub proof fn law_the_larger_is_one_of_the_two(a: Single, b: Single)
    requires
        !a.nan(),
        !b.nan(),
    ensures
        a.larger(b) == a || a.larger(b) == b,
        a.larger(b).rank() >= a.rank(),
        a.larger(b).rank() >= b.rank(),
{
}

proof fn lemma_half_up(units: int)
    requires
        units >= 0,
    ensures
        half_up(units) >= 0,
        -pow2(149) < 2 * (half_up(units) * pow2(149) - units) <= pow2(149),
{
    let unit = pow2(149) as int;
    lemma_pow2_pos(149);
    lemma_pow2_unfold(150);
    let whole = half_up(units);
    lemma_fundamental_div_mod(2 * units + unit, 2 * unit);
    assert(2 * unit * whole == 2 * (whole * unit)) by (nonlinear_arith);
    assert(whole >= 0) by (nonlinear_arith)
        requires
            2 * (whole * unit) > units - unit,
            2 * (whole * unit) > 2 * units - unit,
            units >= 0,
            unit > 0,
    ;
}

/// Rounding gives the integer nearest to a number, a half going away from zero: no integer
/// is nearer, and of two as near the one of larger size is taken.
pub proof fn law_rounding_gives_the_nearest_integer(value: Single)
    requires
        !value.nan(),
    ensures
        -pow2(149) <= 2 * (value.nearest() * pow2(149) - value.units()) <= pow2(149),
        value.units() >= 0 ==> value.nearest() >= 0 && 2 * (value.nearest() * pow2(149)
            - value.units()) > -pow2(149),
        value.units() <= 0 ==> value.nearest() <= 0 && 2 * (value.nearest() * pow2(149)
            - value.units()) < pow2(149),
{
    let unit = pow2(149) as int;
    lemma_pow2_pos(149);
    lemma_pow2_unfold(150);
    let size = value.size();
    assert(size >= 0) by {
        let exponent = value.magnitude() / 0x80_0000;
        let fraction = value.magnitude() % 0x80_0000;
        if exponent != 0 {
            let power: int = pow2((exponent - 1) as nat) as int;
            lemma_pow2_pos((exponent - 1) as nat);
            assert((0x80_0000 + fraction) * power >= 0) by (nonlinear_arith)
                requires
                    fraction >= 0,
                    power >= 0,
            ;
        }
    }
    lemma_half_up(size);
    let whole = half_up(size);
    assert((-whole) * unit == -(whole * unit)) by (nonlinear_arith);
    if size == 0 {
        assert(whole == 0) by {
            assert(unit / (2 * unit) == 0) by (nonlinear_arith)
                requires
                    unit > 0,
            ;
        }
    }
}

/// Cutting off a number gives the largest integer that is not above it, zero for what is
/// below zero.
pub proof fn law_cutting_off_gives_the_integer_below(value: Single)
    requires
        !value.nan(),
    ensures
        value.negative() ==> value.whole_part() == 0,
        !value.negative() ==> value.whole_part() * pow2(149) <= value.units() < (value.whole_part()
            + 1) * pow2(149),
{
    let unit = pow2(149) as int;
    lemma_pow2_pos(149);
    if !value.negative() {
        let whole = value.whole_part();
        lemma_fundamental_div_mod(value.size(), unit);
        assert(unit * whole == whole * unit) by (nonlinear_arith);
        assert((whole + 1) * unit == whole * unit + unit) by (nonlinear_arith);
    }
}

/// A number is whole exactly where it is finite and some integer times one.
pub proof fn law_a_whole_number_is_an_integer(value: Single, whole: int)
    requires
        value.finite(),
    ensures
        value.units() == whole * pow2(149) ==> value.integral(),
        value.integral() ==> value.units() == (if value.negative() {
            -(value.size() / (pow2(149) as int))
        } else {
            value.size() / (pow2(149) as int)
        }) * pow2(149),
{
    let unit = pow2(149) as int;
    lemma_pow2_pos(149);
    let size = value.size();
    lemma_fundamental_div_mod(size, unit);
    let count = size / unit;
    assert(unit * count == count * unit) by (nonlinear_arith);
    assert((-count) * unit == -(count * unit)) by (nonlinear_arith);
    if value.units() == whole * unit {
        let n = if value.negative() {
            -whole
        } else {
            whole
        };
        assert((-whole) * unit == -(whole * unit)) by (nonlinear_arith);
        assert(size == n * unit);
        vstd::arithmetic::div_mod::lemma_mod_multiples_basic(n, unit);
    }
}

} // verus!
