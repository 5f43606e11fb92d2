//! Single-precision numbers, carried as their bit patterns.
//!
//! Nothing here computes with fractions. What the terrain needs of a number is how
//! it compares with another one, which of two is larger, the next one up, and the
//! integer it rounds to, and each of those is integer arithmetic on the pattern.

use vstd::prelude::*;
use vstd::arithmetic::div_mod::*;
use vstd::arithmetic::power2::*;

verus! {

/// An IEEE 754 single-precision number as its bit pattern: the sign in the top bit,
/// then eight bits of exponent, then twenty-three of fraction.
#[derive(Clone, Copy, Debug, PartialEq, Eq, Structural)]
pub struct Single(pub u32);

/// The pattern of positive infinity, which is the largest magnitude that is a number.
pub const INFINITE_MAGNITUDE: u32 = 0x7f80_0000;

/// The sign bit on its own.
pub const SIGN_BIT: u32 = 0x8000_0000;

impl Single {
    /// Positive zero.
    pub open spec fn zero() -> Single {
        Single(0)
    }

    /// The number one.
    pub open spec fn one() -> Single {
        Single(0x3f80_0000)
    }

    /// The pattern without its sign.
    pub open spec fn magnitude(self) -> int {
        if self.0 >= SIGN_BIT {
            self.0 - SIGN_BIT
        } else {
            self.0 as int
        }
    }

    /// Whether the sign bit is set.
    pub open spec fn negative(self) -> bool {
        self.0 >= SIGN_BIT
    }

    /// Whether the pattern is not a number.
    pub open spec fn nan(self) -> bool {
        self.magnitude() > INFINITE_MAGNITUDE
    }

    /// Whether the pattern is a number other than an infinity.
    pub open spec fn finite(self) -> bool {
        self.magnitude() < INFINITE_MAGNITUDE
    }

    /// Where the number stands among all numbers: larger numbers have larger ranks,
    /// and the two zeros share one.
    pub open spec fn rank(self) -> int {
        if self.negative() {
            -self.magnitude()
        } else {
            self.magnitude()
        }
    }

    /// The value of the number in units of the smallest positive one, two to the power
    /// of minus 149. An infinity counts as the value its pattern would have next.
    pub open spec fn units(self) -> int {
        if self.negative() {
            -self.size()
        } else {
            self.size()
        }
    }

    /// `self < other`, false where either is not a number.
    pub open spec fn below(self, other: Single) -> bool {
        !self.nan() && !other.nan() && self.rank() < other.rank()
    }

    /// `self <= other`, false where either is not a number.
    pub open spec fn at_most(self, other: Single) -> bool {
        !self.nan() && !other.nan() && self.rank() <= other.rank()
    }

    /// The larger of the two, or the one that is a number where the other is not.
    pub open spec fn larger(self, other: Single) -> Single {
        if self.nan() {
            other
        } else if other.nan() || other.rank() <= self.rank() {
            self
        } else {
            other
        }
    }

    /// The least number above this one. Infinity and a non-number stand as they are.
    pub open spec fn following(self) -> Single {
        if self.nan() || self.0 == INFINITE_MAGNITUDE {
            self
        } else if self.magnitude() == 0 {
            Single(1)
        } else if self.negative() {
            Single((self.0 - 1) as u32)
        } else {
            Single((self.0 + 1) as u32)
        }
    }

    /// The number held between two bounds.
    pub open spec fn held(self, low: Single, high: Single) -> Single {
        if self.below(low) {
            low
        } else if high.below(self) {
            high
        } else {
            self
        }
    }

    /// A key that orders every pattern: the patterns of negative numbers reversed, then
    /// those of positive ones.
    pub open spec fn key(self) -> u32 {
        if self.negative() {
            (0xffff_ffff - self.0) as u32
        } else {
            (self.0 + SIGN_BIT) as u32
        }
    }

    /// The nearest integer, a half going away from zero. Zero where the pattern is not
    /// a number.
    pub open spec fn nearest(self) -> int {
        if self.nan() {
            0
        } else if self.negative() {
            -half_up(-self.units())
        } else {
            half_up(self.units())
        }
    }

    /// The integer part of the number. Zero where the number is negative or the pattern is
    /// not a number.
    pub open spec fn whole_part(self) -> int {
        if self.nan() || self.negative() {
            0
        } else {
            self.size() / (pow2(149) as int)
        }
    }

    /// Whether the pattern is a whole number.
    pub open spec fn integral(self) -> bool {
        self.finite() && self.size() % (pow2(149) as int) == 0
    }

    /// Whether the pattern is a whole number.
    pub fn is_integral(self) -> (answer: bool)
        ensures
            answer == self.integral(),
    {
        let magnitude: u32 = if self.0 >= SIGN_BIT { self.0 - SIGN_BIT } else { self.0 };
        if magnitude >= INFINITE_MAGNITUDE {
            return false;
        }
        let exponent: u32 = magnitude / 0x80_0000;
        let fraction: u32 = magnitude % 0x80_0000;
        proof {
            lemma_integral(exponent as int, fraction as int);
        }
        if exponent < 127 {
            magnitude == 0
        } else if exponent < 150 {
            let mantissa: u64 = 0x80_0000 + fraction as u64;
            let divisor: u64 = power_of_two(150 - exponent);
            proof {
                lemma_pow2_pos((150 - exponent) as nat);
            }
            mantissa % divisor == 0
        } else {
            true
        }
    }

    /// Whether the pattern is not a number.
    pub fn is_nan(self) -> (answer: bool)
        ensures
            answer == self.nan(),
    {
        if self.0 >= SIGN_BIT {
            self.0 - SIGN_BIT > INFINITE_MAGNITUDE
        } else {
            self.0 > INFINITE_MAGNITUDE
        }
    }

    /// Whether the pattern is a number other than an infinity.
    pub fn is_finite(self) -> (answer: bool)
        ensures
            answer == self.finite(),
    {
        if self.0 >= SIGN_BIT {
            self.0 - SIGN_BIT < INFINITE_MAGNITUDE
        } else {
            self.0 < INFINITE_MAGNITUDE
        }
    }

    fn place(self) -> (place: i64)
        ensures
            place == self.rank(),
    {
        if self.0 >= SIGN_BIT {
            -((self.0 - SIGN_BIT) as i64)
        } else {
            self.0 as i64
        }
    }

    /// Whether this number is less than the other.
    pub fn lt(self, other: Single) -> (answer: bool)
        ensures
            answer == self.below(other),
    {
        !self.is_nan() && !other.is_nan() && self.place() < other.place()
    }

    /// Whether this number is at most the other.
    pub fn le(self, other: Single) -> (answer: bool)
        ensures
            answer == self.at_most(other),
    {
        !self.is_nan() && !other.is_nan() && self.place() <= other.place()
    }

    /// The larger of two numbers; a pattern that is not a number loses to one that is.
    pub fn max(self, other: Single) -> (answer: Single)
        ensures
            answer == self.larger(other),
    {
        if self.is_nan() {
            other
        } else if other.is_nan() || other.place() <= self.place() {
            self
        } else {
            other
        }
    }

    /// The least number above this one.
    pub fn next_up(self) -> (answer: Single)
        ensures
            answer == self.following(),
    {
        if self.is_nan() || self.0 == INFINITE_MAGNITUDE {
            self
        } else if self.0 == 0 || self.0 == SIGN_BIT {
            Single(1)
        } else if self.0 >= SIGN_BIT {
            Single(self.0 - 1)
        } else {
            Single(self.0 + 1)
        }
    }

    /// The number held between `low` and `high`.
    pub fn clamp(self, low: Single, high: Single) -> (answer: Single)
        requires
            low.at_most(high),
        ensures
            answer == self.held(low, high),
    {
        if self.lt(low) {
            low
        } else if high.lt(self) {
            high
        } else {
            self
        }
    }

    /// The key that orders patterns.
    pub fn order_key(self) -> (key: u32)
        ensures
            key == self.key(),
    {
        if self.0 >= SIGN_BIT {
            0xffff_ffff - self.0
        } else {
            self.0 + SIGN_BIT
        }
    }

    /// The size of the number rounded to an integer, or two to the power of 32 where
    /// that is smaller.
    fn whole(self) -> (whole: u64)
        requires
            !self.nan(),
        ensures
            whole == capped(half_up(self.size()), 0x1_0000_0000),
    {
        let magnitude: u32 = if self.0 >= SIGN_BIT { self.0 - SIGN_BIT } else { self.0 };
        let exponent: u32 = magnitude / 0x80_0000;
        let fraction: u32 = magnitude % 0x80_0000;
        if exponent < 126 {
            proof {
                lemma_small_rounds_to_zero(exponent as int, fraction as int);
            }
            0
        } else if exponent < 150 {
            let mantissa: u64 = 0x80_0000 + fraction as u64;
            let divisor: u64 = power_of_two(150 - exponent);
            proof {
                lemma_middle_rounds(exponent as int, fraction as int);
                lemma_pow2_unfold((150 - exponent) as nat);
                lemma_pow2_pos((149 - exponent) as nat);
            }
            (mantissa + divisor / 2) / divisor
        } else if exponent < 159 {
            let mantissa: u64 = 0x80_0000 + fraction as u64;
            let factor: u64 = power_of_two(exponent - 150);
            proof {
                lemma_large_rounds(exponent as int, fraction as int);
                assert(pow2((exponent - 150) as nat) <= 256) by {
                    if exponent < 158 {
                        lemma_pow2_strictly_increases((exponent - 150) as nat, 8);
                    }
                    lemma2_to64();
                }
                assert(mantissa * factor < 0x1_0000_0000) by (nonlinear_arith)
                    requires
                        mantissa < 0x100_0000,
                        factor <= 256,
                ;
            }
            mantissa * factor
        } else {
            proof {
                lemma_large_rounds(exponent as int, fraction as int);
                assert(pow2((exponent - 150) as nat) >= 512) by {
                    if exponent > 159 {
                        lemma_pow2_strictly_increases(9, (exponent - 150) as nat);
                    }
                    lemma2_to64();
                }
                let power: int = pow2((exponent - 150) as nat) as int;
                assert((0x80_0000 + fraction) * power >= 0x1_0000_0000) by (nonlinear_arith)
                    requires
                        fraction >= 0,
                        power >= 512,
                ;
            }
            0x1_0000_0000
        }
    }

    /// The nearest `i32`, a half going away from zero, held at the ends of its range.
    /// Zero where the pattern is not a number.
    pub fn round_i32(self) -> (answer: i32)
        ensures
            answer == held_between(self.nearest(), i32::MIN as int, i32::MAX as int),
    {
        if self.is_nan() {
            return 0;
        }
        let whole: u64 = self.whole();
        proof {
            self.lemma_units();
        }
        if self.0 >= SIGN_BIT {
            if whole >= 0x8000_0000 {
                i32::MIN
            } else {
                (-(whole as i64)) as i32
            }
        } else if whole >= 0x8000_0000 {
            i32::MAX
        } else {
            whole as i32
        }
    }

    /// The nearest `u32`, a half going away from zero, held at the ends of its range.
    /// Zero where the pattern is not a number.
    pub fn round_u32(self) -> (answer: u32)
        ensures
            answer == held_between(self.nearest(), 0, u32::MAX as int),
    {
        if self.is_nan() {
            return 0;
        }
        proof {
            self.lemma_units();
        }
        if self.0 >= SIGN_BIT {
            return 0;
        }
        let whole: u64 = self.whole();
        if whole > 0xffff_ffff {
            u32::MAX
        } else {
            whole as u32
        }
    }

    /// The integer part as a `u32`, held at the ends of its range. Zero where the pattern is
    /// not a number.
    pub fn truncate_u32(self) -> (answer: u32)
        ensures
            answer == held_between(self.whole_part(), 0, u32::MAX as int),
    {
        if self.is_nan() || self.0 >= SIGN_BIT {
            return 0;
        }
        let exponent: u32 = self.0 / 0x80_0000;
        let fraction: u32 = self.0 % 0x80_0000;
        proof {
            lemma_whole_part(exponent as int, fraction as int);
        }
        if exponent < 127 {
            0
        } else if exponent < 150 {
            let mantissa: u64 = 0x80_0000 + fraction as u64;
            let divisor: u64 = power_of_two(150 - exponent);
            proof {
                lemma_pow2_pos((150 - exponent) as nat);
                assert(mantissa / divisor <= mantissa) by (nonlinear_arith)
                    requires
                        divisor >= 1,
                ;
            }
            (mantissa / divisor) as u32
        } else if exponent < 159 {
            let mantissa: u64 = 0x80_0000 + fraction as u64;
            let factor: u64 = power_of_two(exponent - 150);
            proof {
                assert(pow2((exponent - 150) as nat) <= 256) by {
                    if exponent < 158 {
                        lemma_pow2_strictly_increases((exponent - 150) as nat, 8);
                    }
                    lemma2_to64();
                }
                assert(mantissa * factor < 0x1_0000_0000) by (nonlinear_arith)
                    requires
                        mantissa < 0x100_0000,
                        factor <= 256,
                ;
            }
            (mantissa * factor) as u32
        } else {
            proof {
                assert(pow2((exponent - 150) as nat) >= 512) by {
                    if exponent > 159 {
                        lemma_pow2_strictly_increases(9, (exponent - 150) as nat);
                    }
                    lemma2_to64();
                }
                let power: int = pow2((exponent - 150) as nat) as int;
                assert((0x80_0000 + fraction) * power >= 0x1_0000_0000) by (nonlinear_arith)
                    requires
                        fraction >= 0,
                        power >= 512,
                ;
            }
            u32::MAX
        }
    }

    /// The value of the number without its sign, in the units of [`Single::units`].
    pub open spec fn size(self) -> int {
        let exponent = self.magnitude() / 0x80_0000;
        let fraction = self.magnitude() % 0x80_0000;
        scaled(exponent, fraction)
    }

    proof fn lemma_units(self)
        ensures
            self.units() == (if self.negative() { -self.size() } else { self.size() }),
            self.size() >= 0,
            half_up(self.size()) >= 0,
    {
        let exponent = self.magnitude() / 0x80_0000;
        let fraction = self.magnitude() % 0x80_0000;
        lemma_pow2_pos(150);
        lemma_pow2_pos(149);
        if exponent != 0 {
            let power: int = pow2((exponent - 1) as nat) as int;
            lemma_pow2_pos((exponent - 1) as nat);
            assert((0x80_0000 + fraction) * power >= 0) by (nonlinear_arith)
                requires
                    fraction >= 0,
                    power >= 0,
            ;
        }
        let top: int = 2 * self.size() + pow2(149);
        let under: int = pow2(150) as int;
        assert(top / under >= 0) by (nonlinear_arith)
            requires
                top >= 0,
                under > 0,
        ;
    }

    /// The pattern's four bytes, most significant first.
    pub fn to_be_bytes(self) -> (bytes: [u8; 4])
        ensures
            bytes@ == be_bytes(self.0),
    {
        let four: [u8; 4] = le4(self.0);
        let bytes: [u8; 4] = [four[3], four[2], four[1], four[0]];
        assert(bytes@ =~= be_bytes(self.0));
        bytes
    }

    /// The pattern's four bytes, least significant first.
    pub fn to_le_bytes(self) -> (bytes: [u8; 4])
        ensures
            bytes@ == le_bytes(self.0),
    {
        le4(self.0)
    }
}

/// The nearest integer to `units` of two to the minus 149, for `units` not negative, a
/// half going up.
pub open spec fn half_up(units: int) -> int {
    (2 * units + pow2(149)) / (pow2(150) as int)
}

/// The value of an exponent field and a fraction field, in units of the smallest
/// positive number.
pub open spec fn scaled(exponent: int, fraction: int) -> int {
    if exponent == 0 {
        fraction
    } else {
        (0x80_0000 + fraction) * pow2((exponent - 1) as nat)
    }
}

/// The smaller of a value and a cap.
pub open spec fn capped(value: int, cap: int) -> int {
    if value < cap {
        value
    } else {
        cap
    }
}

/// A value held between two bounds.
pub open spec fn held_between(value: int, low: int, high: int) -> int {
    if value < low {
        low
    } else if value > high {
        high
    } else {
        value
    }
}

/// The integer part of what an exponent field and a fraction field stand for.
proof fn lemma_whole_part(exponent: int, fraction: int)
    requires
        0 <= exponent,
        0 <= fraction < 0x80_0000,
    ensures
        scaled(exponent, fraction) / (pow2(149) as int) == (if exponent < 127 {
            0
        } else if exponent < 150 {
            (0x80_0000 + fraction) / (pow2((150 - exponent) as nat) as int)
        } else {
            (0x80_0000 + fraction) * pow2((exponent - 150) as nat)
        }),
{
    let size = scaled(exponent, fraction);
    let mantissa = 0x80_0000 + fraction;
    let one: int = pow2(149) as int;
    lemma_pow2_pos(149);
    if exponent < 127 {
        assert(0 <= size < one) by {
            lemma2_to64();
            if exponent == 0 {
                lemma_pow2_strictly_increases(23, 149);
            } else {
                let power: int = pow2((exponent - 1) as nat) as int;
                lemma_pow2_pos((exponent - 1) as nat);
                lemma_pow2_adds(24, (exponent - 1) as nat);
                assert(0 <= mantissa * power < 0x100_0000 * power) by (nonlinear_arith)
                    requires
                        0 <= mantissa < 0x100_0000,
                        power > 0,
                ;
                if exponent < 126 {
                    lemma_pow2_strictly_increases((24 + exponent - 1) as nat, 149);
                }
            }
        }
        lemma_basic_div(size, one);
    } else if exponent < 150 {
        let below: int = pow2((exponent - 1) as nat) as int;
        let d: int = pow2((150 - exponent) as nat) as int;
        lemma_pow2_pos((exponent - 1) as nat);
        lemma_pow2_pos((150 - exponent) as nat);
        lemma_pow2_adds((exponent - 1) as nat, (150 - exponent) as nat);
        assert(mantissa * below == below * mantissa) by (nonlinear_arith);
        lemma_div_multiples_vanish_quotient(below, mantissa, d);
    } else {
        let below: int = pow2((exponent - 1) as nat) as int;
        let factor: int = pow2((exponent - 150) as nat) as int;
        lemma_pow2_adds(149, (exponent - 150) as nat);
        assert(mantissa * below == one * (mantissa * factor)) by (nonlinear_arith)
            requires
                below == one * factor,
        ;
        lemma_fundamental_div_mod_converse(size, one, mantissa * factor, 0);
    }
}

/// When an exponent field and a fraction field stand for a whole number.
proof fn lemma_integral(exponent: int, fraction: int)
    requires
        0 <= exponent,
        0 <= fraction < 0x80_0000,
    ensures
        scaled(exponent, fraction) % (pow2(149) as int) == 0 <==> (if exponent < 127 {
            exponent == 0 && fraction == 0
        } else if exponent < 150 {
            (0x80_0000 + fraction) % (pow2((150 - exponent) as nat) as int) == 0
        } else {
            true
        }),
{
    let size = scaled(exponent, fraction);
    let mantissa = 0x80_0000 + fraction;
    let one: int = pow2(149) as int;
    lemma_pow2_pos(149);
    if exponent < 127 {
        assert(0 <= size < one && (size == 0 <==> exponent == 0 && fraction == 0)) by {
            lemma2_to64();
            if exponent == 0 {
                lemma_pow2_strictly_increases(23, 149);
            } else {
                let power: int = pow2((exponent - 1) as nat) as int;
                lemma_pow2_pos((exponent - 1) as nat);
                lemma_pow2_adds(24, (exponent - 1) as nat);
                assert(0 < mantissa * power < 0x100_0000 * power) by (nonlinear_arith)
                    requires
                        0 < mantissa < 0x100_0000,
                        power > 0,
                ;
                if exponent < 126 {
                    lemma_pow2_strictly_increases((24 + exponent - 1) as nat, 149);
                }
            }
        }
        lemma_small_mod(size as nat, one as nat);
    } else if exponent < 150 {
        let below: int = pow2((exponent - 1) as nat) as int;
        let d: int = pow2((150 - exponent) as nat) as int;
        lemma_pow2_pos((exponent - 1) as nat);
        lemma_pow2_pos((150 - exponent) as nat);
        lemma_pow2_adds((exponent - 1) as nat, (150 - exponent) as nat);
        assert(mantissa * below == below * mantissa) by (nonlinear_arith);
        lemma_truncate_middle(mantissa, below, d);
        let over = mantissa % d;
        assert(below * over == 0 <==> over == 0) by (nonlinear_arith)
            requires
                below > 0,
        ;
    } else {
        let below: int = pow2((exponent - 1) as nat) as int;
        let factor: int = pow2((exponent - 150) as nat) as int;
        lemma_pow2_adds(149, (exponent - 150) as nat);
        assert(mantissa * below == one * (mantissa * factor)) by (nonlinear_arith)
            requires
                below == one * factor,
        ;
        lemma_fundamental_div_mod_converse(size, one, mantissa * factor, 0);
    }
}

proof fn lemma_small_rounds_to_zero(exponent: int, fraction: int)
    requires
        0 <= exponent < 126,
        0 <= fraction < 0x80_0000,
    ensures
        half_up(scaled(exponent, fraction)) == 0,
{
    let size = scaled(exponent, fraction);
    assert(0 <= size < pow2(148)) by {
        lemma2_to64();
        if exponent == 0 {
            lemma_pow2_strictly_increases(23, 148);
        } else {
            let power: int = pow2((exponent - 1) as nat) as int;
            lemma_pow2_pos((exponent - 1) as nat);
            lemma_pow2_adds(24, (exponent - 1) as nat);
            assert(0 <= (0x80_0000 + fraction) * power < 0x100_0000 * power) by (nonlinear_arith)
                requires
                    0 <= fraction < 0x80_0000,
                    power > 0,
            ;
            if exponent < 125 {
                lemma_pow2_strictly_increases((24 + exponent - 1) as nat, 148);
            }
        }
    }
    lemma_pow2_unfold(149);
    lemma_pow2_unfold(150);
    lemma_basic_div(2 * size + pow2(149), pow2(150) as int);
}

proof fn lemma_middle_rounds(exponent: int, fraction: int)
    requires
        126 <= exponent < 150,
        0 <= fraction < 0x80_0000,
    ensures
        half_up(scaled(exponent, fraction)) == (0x80_0000 + fraction + pow2((149 - exponent) as nat)) / (
        pow2((150 - exponent) as nat) as int),
        half_up(scaled(exponent, fraction)) < 0x100_0000,
{
    let mantissa = 0x80_0000 + fraction;
    let below: int = pow2((exponent - 1) as nat) as int;
    let power: int = pow2(exponent as nat) as int;
    let a: int = mantissa + pow2((149 - exponent) as nat);
    let d: int = pow2((150 - exponent) as nat) as int;
    lemma_pow2_unfold(exponent as nat);
    lemma_pow2_pos(exponent as nat);
    lemma_pow2_pos((149 - exponent) as nat);
    lemma_pow2_pos((150 - exponent) as nat);
    lemma_pow2_unfold((150 - exponent) as nat);
    lemma_pow2_adds(exponent as nat, (149 - exponent) as nat);
    lemma_pow2_adds(exponent as nat, (150 - exponent) as nat);
    assert(2 * (mantissa * below) + pow2(149) == power * a) by (nonlinear_arith)
        requires
            power == 2 * below,
            a == mantissa + pow2((149 - exponent) as nat),
            power * (pow2((149 - exponent) as nat) as int) == pow2(149),
    ;
    lemma_div_multiples_vanish_quotient(power, a, d);
    assert(a / d <= a / 2) by (nonlinear_arith)
        requires
            d >= 2,
            a >= 0,
    ;
    assert(pow2((149 - exponent) as nat) <= 0x80_0000) by {
        lemma2_to64();
        if exponent > 126 {
            lemma_pow2_strictly_increases((149 - exponent) as nat, 23);
        }
    }
}

proof fn lemma_large_rounds(exponent: int, fraction: int)
    requires
        150 <= exponent,
        0 <= fraction < 0x80_0000,
    ensures
        half_up(scaled(exponent, fraction)) == (0x80_0000 + fraction) * pow2(
            (exponent - 150) as nat,
        ),
{
    let mantissa = 0x80_0000 + fraction;
    let below: int = pow2((exponent - 1) as nat) as int;
    let factor: int = pow2((exponent - 150) as nat) as int;
    let d: int = pow2(150) as int;
    let half: int = pow2(149) as int;
    lemma_pow2_pos(149);
    lemma_pow2_unfold(150);
    lemma_pow2_adds(149, (exponent - 150) as nat);
    assert(2 * (mantissa * below) + half == d * (mantissa * factor) + half) by (nonlinear_arith)
        requires
            below == half * factor,
            d == 2 * half,
    ;
    lemma_fundamental_div_mod_converse(
        2 * (mantissa * below) + half,
        d,
        mantissa * factor,
        half,
    );
}

/// Two to the power of `exponent`.
pub(crate) fn power_of_two(exponent: u32) -> (power: u64)
    requires
        exponent <= 40,
    ensures
        power == pow2(exponent as nat),
        power <= 0x100_0000_0000,
{
    let mut power: u64 = 1;
    let mut done: u32 = 0;
    proof {
        lemma2_to64();
        lemma2_to64_rest();
    }
    while done < exponent
        invariant
            done <= exponent <= 40,
            power == pow2(done as nat),
            power <= 0x100_0000_0000,
            pow2(40) == 0x100_0000_0000,
        decreases exponent - done,
    {
        proof {
            lemma_pow2_unfold((done + 1) as nat);
            if done + 1 < 40 {
                lemma_pow2_strictly_increases((done + 1) as nat, 40);
            }
        }
        power = power * 2;
        done = done + 1;
    }
    power
}

/// Ranks order numbers as their values do: one number's rank is under another's exactly
/// where its value is.
pub proof fn law_rank_orders_values(a: Single, b: Single)
    requires
        !a.nan(),
        !b.nan(),
    ensures
        a.rank() < b.rank() <==> a.units() < b.units(),
        a.rank() == b.rank() <==> a.units() == b.units(),
{
    lemma_size_follows_magnitude(a.magnitude(), b.magnitude());
    lemma_size_follows_magnitude(b.magnitude(), a.magnitude());
    lemma_size_follows_magnitude(0, a.magnitude());
    lemma_size_follows_magnitude(0, b.magnitude());
}

/// The heap's key puts numbers in order of value, and no two patterns share a key.
pub proof fn law_key_orders_values(a: Single, b: Single)
    ensures
        a.rank() < b.rank() ==> a.key() < b.key(),
        a.key() == b.key() ==> a == b,
{
}

/// The number after a finite one is above it, with none in between.
pub proof fn law_next_up_is_next(a: Single, b: Single)
    requires
        !a.nan(),
        a.0 != INFINITE_MAGNITUDE,
        !b.nan(),
    ensures
        !a.following().nan(),
        a.below(a.following()),
        a.below(b) ==> a.following().at_most(b),
{
}

proof fn lemma_size_follows_magnitude(small: int, large: int)
    requires
        0 <= small,
        0 <= large,
    ensures
        small < large ==> scaled(small / 0x80_0000, small % 0x80_0000) < scaled(
            large / 0x80_0000,
            large % 0x80_0000,
        ),
        scaled(0, 0) == 0,
    decreases large,
{
    if small < large {
        lemma_size_steps_up(large - 1);
        if small < large - 1 {
            lemma_size_follows_magnitude(small, large - 1);
        }
    }
}

proof fn lemma_size_steps_up(magnitude: int)
    requires
        0 <= magnitude,
    ensures
        scaled(magnitude / 0x80_0000, magnitude % 0x80_0000) < scaled(
            (magnitude + 1) / 0x80_0000,
            (magnitude + 1) % 0x80_0000,
        ),
{
    let exponent = magnitude / 0x80_0000;
    let fraction = magnitude % 0x80_0000;
    lemma2_to64();
    if fraction + 1 < 0x80_0000 {
        assert((magnitude + 1) / 0x80_0000 == exponent && (magnitude + 1) % 0x80_0000 == fraction
            + 1);
    } else {
        assert((magnitude + 1) / 0x80_0000 == exponent + 1 && (magnitude + 1) % 0x80_0000 == 0);
    }
    if exponent > 0 {
        let power: int = pow2((exponent - 1) as nat) as int;
        lemma_pow2_pos((exponent - 1) as nat);
        lemma_pow2_unfold(exponent as nat);
        assert((0x80_0000 + fraction + 1) * power == (0x80_0000 + fraction) * power + power)
            by (nonlinear_arith);
        if fraction + 1 == 0x80_0000 {
            let next: int = pow2(exponent as nat) as int;
            assert(next == 2 * power);
            assert((0x80_0000 + 0) * next == (0x80_0000 + fraction + 1) * power)
                by (nonlinear_arith)
                requires
                    next == 2 * power,
                    fraction + 1 == 0x80_0000,
            ;
        }
    }
}

/// The four bytes of a word, most significant first.
pub open spec fn be_bytes(word: u32) -> Seq<u8> {
    le_bytes(word).reverse()
}

/// The four bytes of `word`, least significant first.
pub open spec fn le_bytes(word: u32) -> Seq<u8> {
    seq![
        (word % 0x100) as u8,
        (word / 0x100 % 0x100) as u8,
        (word / 0x1_0000 % 0x100) as u8,
        (word / 0x100_0000) as u8,
    ]
}

/// The four bytes of `word`, least significant first.
pub fn le4(word: u32) -> (bytes: [u8; 4])
    ensures
        bytes@ == le_bytes(word),
{
    let bytes: [u8; 4] = [
        (word % 0x100) as u8,
        (word / 0x100 % 0x100) as u8,
        (word / 0x1_0000 % 0x100) as u8,
        (word / 0x100_0000) as u8,
    ];
    assert(bytes@ =~= le_bytes(word));
    bytes
}

} // verus!
