//! Single-precision numbers, held as their IEEE 754 bit patterns.
//!
//! What can be decided about a single exactly (its sign, its order among the
//! other singles, the whole number it truncates or rounds to) is decided here,
//! on the bits. Arithmetic that rounds is left to a caller: see [`crate::arith`].
use vstd::arithmetic::div_mod::{
    lemma_div_denominator, lemma_div_is_ordered, lemma_div_multiples_vanish,
    lemma_fundamental_div_mod_converse,
};
use vstd::arithmetic::power2::{
    lemma2_to64, lemma_pow2_adds, lemma_pow2_pos, lemma_pow2_strictly_increases,
    lemma_pow2_unfold, pow2,
};
use vstd::bits::{lemma_u64_shl_is_mul, lemma_u64_shr_is_div};
use vstd::prelude::*;

verus! {

/// The bit pattern of 0.
pub const ZERO: u32 = 0;

/// The bit pattern of 0.00001.
pub const HUNDRED_THOUSANDTH: u32 = 0x3727_C5AC;

/// The bit pattern of 0.01.
pub const HUNDREDTH: u32 = 0x3C23_D70A;

/// The bit pattern of 0.5.
pub const HALF: u32 = 0x3F00_0000;

/// The bit pattern of 0.6.
pub const THREE_FIFTHS: u32 = 0x3F19_999A;

/// The bit pattern of 0.625.
pub const FIVE_EIGHTHS: u32 = 0x3F20_0000;

/// The bit pattern of 0.8.
pub const FOUR_FIFTHS: u32 = 0x3F4C_CCCD;

/// The bit pattern of 1.
pub const ONE: u32 = 0x3F80_0000;

/// The bit pattern of 2.
pub const TWO: u32 = 0x4000_0000;

/// The bit pattern of 4.
pub const FOUR: u32 = 0x4080_0000;

/// The bit pattern of 16.
pub const SIXTEEN: u32 = 0x4180_0000;

/// The bit pattern of 30.
pub const THIRTY: u32 = 0x41F0_0000;

/// The bit pattern of 225.
pub const TWO_HUNDRED_TWENTY_FIVE: u32 = 0x4361_0000;

/// The bit pattern of 255.
pub const TWO_HUNDRED_FIFTY_FIVE: u32 = 0x437F_0000;

/// The bit pattern of the greatest finite single.
pub const GREATEST: u32 = 0x7F7F_FFFF;

/// The bit pattern of the least finite single.
pub const LEAST: u32 = 0xFF7F_FFFF;

/// The bit pattern of infinity; a greater magnitude is not a number.
pub const INFINITY: u32 = 0x7F80_0000;

/// The sign bit.
pub const SIGN: u32 = 0x8000_0000;

/// The weight of the lowest exponent bit.
pub const EXPONENT_STEP: u32 = 0x0080_0000;

/// A single-precision number, by its bit pattern.
#[derive(Clone, Copy, Debug, PartialEq, Eq, Structural)]
pub struct Single {
    pub bits: u32,
}

/// The magnitude with bit pattern `m`, in units of the least positive single,
/// which is 2 to the power of -149. Every finite magnitude is a whole number of
/// these; that of infinity lies above them all.
pub open spec fn units(m: nat) -> nat {
    if m < EXPONENT_STEP {
        m
    } else {
        (m % (EXPONENT_STEP as nat) + EXPONENT_STEP as nat) * pow2((m / (EXPONENT_STEP as nat) - 1) as nat)
    }
}

/// The number of units in one.
pub open spec fn units_in_one() -> nat {
    pow2(149)
}

impl Single {
    /// Whether the sign bit is set.
    pub open spec fn is_negative(self) -> bool {
        self.bits >= SIGN
    }

    /// The bit pattern without its sign.
    pub open spec fn magnitude(self) -> nat {
        (self.bits % SIGN) as nat
    }

    /// Whether the bit pattern stands for no number.
    pub open spec fn is_nan(self) -> bool {
        self.magnitude() > INFINITY
    }

    /// The number, in units of 2 to the power of -149.
    pub open spec fn value(self) -> int {
        if self.is_negative() {
            -units(self.magnitude())
        } else {
            units(self.magnitude()) as int
        }
    }

    /// `self < other`: false where either is not a number.
    pub open spec fn lt(self, other: Single) -> bool {
        !self.is_nan() && !other.is_nan() && self.value() < other.value()
    }

    /// `self >= other`: false where either is not a number.
    pub open spec fn ge(self, other: Single) -> bool {
        !self.is_nan() && !other.is_nan() && self.value() >= other.value()
    }

    /// The number rounded towards zero, held between 0 and `max`; 0 for what is not a number.
    pub open spec fn truncated(self, max: nat) -> nat {
        if self.is_nan() || self.is_negative() {
            0
        } else if self.value() / (units_in_one() as int) < max {
            (self.value() / (units_in_one() as int)) as nat
        } else {
            max
        }
    }

    /// The nearest whole number, away from zero from halfway, held between 0 and
    /// 255; 0 for what is not a number.
    pub open spec fn rounded(self) -> nat {
        let nearest = (2 * self.value() + units_in_one()) / (2 * units_in_one() as int);
        if self.is_nan() || self.is_negative() {
            0
        } else if nearest < 255 {
            nearest as nat
        } else {
            255
        }
    }

    /// The number without its sign.
    pub open spec fn abs_spec(self) -> Single {
        Single { bits: self.bits % SIGN }
    }

    /// The number with its sign turned.
    pub open spec fn neg_spec(self) -> Single {
        Single {
            bits: if self.is_negative() {
                (self.bits - SIGN) as u32
            } else {
                (self.bits + SIGN) as u32
            },
        }
    }

    /// The lesser of the two; the other where one is not a number.
    pub open spec fn min_spec(self, other: Single) -> Single {
        if self.is_nan() || other.lt(self) {
            other
        } else {
            self
        }
    }

    /// The greater of the two; the other where one is not a number.
    pub open spec fn max_spec(self, other: Single) -> Single {
        if self.is_nan() || self.lt(other) {
            other
        } else {
            self
        }
    }

    /// Whether the bit pattern stands for no number.
    pub fn not_a_number(self) -> (r: bool)
        ensures
            r == self.is_nan(),
    {
        self.bits % SIGN > INFINITY
    }

    /// Whether this is zero, of either sign.
    pub fn is_zero(self) -> (r: bool)
        ensures
            r == (!self.is_nan() && self.value() == 0),
    {
        proof {
            if self.magnitude() > 0 {
                lemma_units_increase(0, self.magnitude());
            }
        }
        self.bits % SIGN == 0
    }

    /// `self < other`.
    pub fn less(self, other: Single) -> (r: bool)
        ensures
            r == self.lt(other),
    {
        if self.not_a_number() || other.not_a_number() {
            return false;
        }
        let a: u32 = self.bits % SIGN;
        let b: u32 = other.bits % SIGN;
        proof {
            if a < b {
                lemma_units_increase(a as nat, b as nat);
            } else if b < a {
                lemma_units_increase(b as nat, a as nat);
            }
            if a > 0 {
                lemma_units_increase(0, a as nat);
            }
            if b > 0 {
                lemma_units_increase(0, b as nat);
            }
        }
        if self.bits >= SIGN {
            if other.bits >= SIGN {
                b < a
            } else {
                a > 0 || b > 0
            }
        } else {
            other.bits < SIGN && a < b
        }
    }

    /// `self >= other`.
    pub fn at_least(self, other: Single) -> (r: bool)
        ensures
            r == self.ge(other),
    {
        !self.not_a_number() && !other.not_a_number() && !self.less(other)
    }

    /// The number without its sign.
    pub fn abs(self) -> (r: Single)
        ensures
            r == self.abs_spec(),
    {
        Single { bits: self.bits % SIGN }
    }

    /// The number with its sign turned.
    pub fn neg(self) -> (r: Single)
        ensures
            r == self.neg_spec(),
    {
        if self.bits >= SIGN {
            Single { bits: self.bits - SIGN }
        } else {
            Single { bits: self.bits + SIGN }
        }
    }

    /// The lesser of the two; the other where one is not a number.
    pub fn min(self, other: Single) -> (r: Single)
        ensures
            r == self.min_spec(other),
    {
        if self.not_a_number() || other.less(self) {
            other
        } else {
            self
        }
    }

    /// The greater of the two; the other where one is not a number.
    pub fn max(self, other: Single) -> (r: Single)
        ensures
            r == self.max_spec(other),
    {
        if self.not_a_number() || self.less(other) {
            other
        } else {
            self
        }
    }

    /// The number rounded towards zero, held between 0 and `max`.
    pub fn truncate(self, max: u64) -> (r: u64)
        ensures
            r == self.truncated(max as nat),
            r <= max,
    {
        if self.not_a_number() || self.bits >= SIGN {
            return 0;
        }
        let exponent: u32 = self.bits / EXPONENT_STEP;
        let significand: u64 = (self.bits % EXPONENT_STEP + EXPONENT_STEP) as u64;
        if exponent < 127 {
            proof {
                lemma_below_one(self.bits as nat);
            }
            return 0;
        }
        proof {
            lemma_units_split(self.bits as nat);
        }
        if exponent >= 191 {
            proof {
                lemma_beyond_u64(self.bits as nat);
            }
            return max;
        }
        let whole: u64 = if exponent >= 150 {
            let up: u64 = (exponent - 150) as u64;
            proof {
                lemma_scale_up(significand, up);
            }
            significand << up
        } else {
            let down: u64 = (150 - exponent) as u64;
            proof {
                lemma_scale_down(significand, down);
            }
            significand >> down
        };
        if whole < max {
            whole
        } else {
            max
        }
    }

    /// The nearest whole number, away from zero from halfway, held between 0 and 255.
    pub fn round(self) -> (r: u8)
        ensures
            r == self.rounded(),
    {
        if self.not_a_number() || self.bits >= SIGN {
            return 0;
        }
        let exponent: u32 = self.bits / EXPONENT_STEP;
        let significand: u64 = (self.bits % EXPONENT_STEP + EXPONENT_STEP) as u64;
        if exponent < 126 {
            proof {
                lemma_below_half(self.bits as nat);
            }
            return 0;
        }
        proof {
            lemma_units_split(self.bits as nat);
        }
        if exponent >= 135 {
            proof {
                lemma_beyond_byte(self.bits as nat);
            }
            return 255;
        }
        let down: u64 = (150 - exponent) as u64;
        proof {
            lemma_round_down_to_whole(significand, down);
        }
        let half: u64 = 1u64 << ((down - 1) as u64);
        let nearest: u64 = (significand + half) >> down;
        if nearest < 255 {
            nearest as u8
        } else {
            255
        }
    }
}

/// A number with its sign turned.
pub proof fn lemma_turned_sign(a: Single)
    ensures
        a.neg_spec().neg_spec() == a,
        a.neg_spec().abs_spec() == a.abs_spec(),
        a.neg_spec().is_negative() != a.is_negative(),
        a.neg_spec().magnitude() == a.magnitude(),
        a.neg_spec().is_nan() == a.is_nan(),
        a.neg_spec().value() == -a.value(),
        a.abs_spec().value() == a.value() || a.abs_spec().value() == -a.value(),
        a.abs_spec().is_nan() == a.is_nan(),
{
    assert(a.neg_spec().bits % SIGN == a.bits % SIGN);
}

/// A greater bit pattern stands for a greater magnitude.
pub proof fn lemma_units_increase(a: nat, b: nat)
    requires
        a < b,
    ensures
        units(a) < units(b),
{
    let step = EXPONENT_STEP as nat;
    let (ea, fa) = (a / step, a % step);
    let (eb, fb) = (b / step, b % step);
    lemma_pow2_pos(0);
    if a < step && b >= step {
        lemma_pow2_pos((eb - 1) as nat);
        let p = pow2((eb - 1) as nat);
        assert((fb + step) * p >= step) by (nonlinear_arith)
            requires
                p >= 1,
                fb >= 0,
                step > 0,
        ;
    } else if a >= step {
        let pa = pow2((ea - 1) as nat);
        let pb = pow2((eb - 1) as nat);
        lemma_pow2_pos((ea - 1) as nat);
        if ea == eb {
            assert((fa + step) * pa < (fb + step) * pa) by (nonlinear_arith)
                requires
                    fa < fb,
                    pa >= 1,
            ;
        } else {
            lemma_pow2_unfold(ea);
            if ea < eb - 1 {
                lemma_pow2_strictly_increases(ea, (eb - 1) as nat);
            }
            assert((fa + step) * pa < (fb + step) * pb) by (nonlinear_arith)
                requires
                    fa < step,
                    fb >= 0,
                    pa >= 1,
                    pb >= 2 * pa,
                    step > 0,
            ;
        }
    }
}

/// A magnitude that does not lie below the normal ones is a significand times a power of two.
proof fn lemma_units_split(m: nat)
    requires
        m / (EXPONENT_STEP as nat) >= 1,
    ensures
        units(m) == (m % (EXPONENT_STEP as nat) + EXPONENT_STEP as nat) * pow2(
            (m / (EXPONENT_STEP as nat) - 1) as nat,
        ),
{
}

/// The least magnitude with exponent field `e`.
proof fn lemma_power(e: nat)
    requires
        e >= 1,
    ensures
        units(e * EXPONENT_STEP as nat) == pow2((e + 22) as nat),
{
    let step = EXPONENT_STEP as nat;
    lemma_fundamental_div_mod_converse((e * step) as int, step as int, e as int, 0);
    lemma2_to64();
    lemma_pow2_adds(23, (e - 1) as nat);
}

/// A magnitude is bounded by those with an exponent field on either side of its own.
proof fn lemma_bounds(m: nat, e: nat)
    requires
        e >= 1,
    ensures
        m / (EXPONENT_STEP as nat) < e ==> units(m) < pow2((e + 22) as nat),
        m / (EXPONENT_STEP as nat) >= e ==> units(m) >= pow2((e + 22) as nat),
{
    let step = EXPONENT_STEP as nat;
    lemma_power(e);
    if m / step < e {
        assert(m < e * step) by (nonlinear_arith)
            requires
                m / step < e,
                step > 0,
        ;
        lemma_units_increase(m, e * step);
    } else {
        assert(m >= e * step) by (nonlinear_arith)
            requires
                m / step >= e,
                step > 0,
        ;
        if m > e * step {
            lemma_units_increase(e * step, m);
        }
    }
}

proof fn lemma_below_one(m: nat)
    requires
        m / (EXPONENT_STEP as nat) < 127,
    ensures
        units(m) as int / (units_in_one() as int) == 0,
{
    lemma_bounds(m, 127);
    vstd::arithmetic::div_mod::lemma_basic_div(units(m) as int, units_in_one() as int);
}

proof fn lemma_beyond_u64(m: nat)
    requires
        m / (EXPONENT_STEP as nat) >= 191,
    ensures
        units(m) as int / (units_in_one() as int) > u64::MAX,
{
    lemma_bounds(m, 191);
    lemma_pow2_adds(64, 149);
    lemma_pow2_pos(149);
    lemma2_to64();
    let p = pow2(149) as int;
    lemma_div_is_ordered(pow2(64) * p, units(m) as int, p);
    lemma_div_multiples_vanish(pow2(64) as int, p);
    assert(pow2(64) * p == p * pow2(64)) by (nonlinear_arith);
}

proof fn lemma_scale_up(significand: u64, up: u64)
    requires
        significand < 0x100_0000,
        up <= 40,
    ensures
        (significand << up) as int == (significand * pow2((up + 149) as nat)) / (
        units_in_one() as int),
{
    lemma2_to64();
    lemma_pow2_adds(up as nat, 149);
    lemma_pow2_pos(149);
    if up < 40 {
        lemma_pow2_strictly_increases(up as nat, 40);
    }
    let q = pow2(up as nat) as int;
    let p = pow2(149) as int;
    lemma_pow2_pos(up as nat);
    assert(significand * q <= 0xFF_FFFF * pow2(40)) by (nonlinear_arith)
        requires
            0 <= significand <= 0xFF_FFFF,
            0 < q <= pow2(40),
    ;
    lemma2_to64_forty();
    lemma_u64_shl_is_mul(significand, up);
    assert(significand * (q * p) == p * (significand * q)) by (nonlinear_arith);
    lemma_div_multiples_vanish(significand * q, p);
}

proof fn lemma2_to64_forty()
    ensures
        pow2(40) == 0x100_0000_0000,
{
    vstd::arithmetic::power2::lemma2_to64_rest();
}

/// Common powers of two cancel from a quotient.
proof fn lemma_cancel(x: int, c: int, d: int)
    requires
        x >= 0,
        c > 0,
        d > 0,
    ensures
        (x * c) / (c * d) == x / d,
{
    lemma_div_denominator(x * c, c, d);
    assert(x * c == c * x) by (nonlinear_arith);
    lemma_div_multiples_vanish(x, c);
    assert(c * d > 0) by (nonlinear_arith)
        requires
            c > 0,
            d > 0,
    ;
}

proof fn lemma_scale_down(significand: u64, down: u64)
    requires
        1 <= down <= 23,
    ensures
        (significand >> down) as int == (significand * pow2((149 - down) as nat)) / (
        units_in_one() as int),
{
    lemma_u64_shr_is_div(significand, down);
    lemma_pow2_adds((149 - down) as nat, down as nat);
    lemma_pow2_pos((149 - down) as nat);
    lemma_pow2_pos(down as nat);
    lemma_cancel(significand as int, pow2((149 - down) as nat) as int, pow2(down as nat) as int);
}

proof fn lemma_below_half(m: nat)
    requires
        m / (EXPONENT_STEP as nat) < 126,
    ensures
        (2 * units(m) + units_in_one()) as int / (2 * units_in_one() as int) == 0,
{
    lemma_bounds(m, 126);
    lemma_pow2_unfold(149);
    vstd::arithmetic::div_mod::lemma_basic_div(
        (2 * units(m) + units_in_one()) as int,
        2 * units_in_one() as int,
    );
}

proof fn lemma_beyond_byte(m: nat)
    requires
        m / (EXPONENT_STEP as nat) >= 135,
    ensures
        (2 * units(m) + units_in_one()) as int / (2 * units_in_one() as int) >= 255,
{
    lemma_bounds(m, 135);
    lemma2_to64();
    lemma_pow2_adds(8, 149);
    lemma_pow2_pos(149);
    let p = pow2(149) as int;
    lemma_div_is_ordered((2 * p) * 256, 2 * units(m) + p, 2 * p);
    lemma_div_multiples_vanish(256, 2 * p);
}

proof fn lemma_round_down_to_whole(significand: u64, down: u64)
    requires
        significand < 0x100_0000,
        16 <= down <= 24,
    ensures
        1u64 << ((down - 1) as u64) <= 0x80_0000,
        (((significand + (1u64 << ((down - 1) as u64))) as u64) >> down) as int == (2 * (
        significand * pow2((149 - down) as nat)) + units_in_one()) / (2 * units_in_one() as int),
{
    lemma2_to64();
    let d = (down - 1) as u64;
    let h = pow2(d as nat);
    if d < 23 {
        lemma_pow2_strictly_increases(d as nat, 23);
    }
    lemma_u64_shl_is_mul(1, d);
    let sum = (significand + (1u64 << d)) as u64;
    lemma_u64_shr_is_div(sum, down);
    lemma_pow2_unfold(down as nat);
    let c = pow2((149 - down) as nat) as int;
    lemma_pow2_adds((149 - down) as nat, down as nat);
    lemma_pow2_pos((149 - down) as nat);
    lemma_pow2_pos(d as nat);
    let x = 2 * (significand + h);
    let t = 2 * pow2(down as nat);
    assert(2 * (significand * c) + c * pow2(down as nat) == x * c) by (nonlinear_arith)
        requires
            x == 2 * (significand + h),
            pow2(down as nat) == 2 * h,
    ;
    assert(2 * (c * pow2(down as nat)) == c * t) by (nonlinear_arith)
        requires
            t == 2 * pow2(down as nat),
    ;
    lemma_cancel(x, c, t as int);
    lemma_cancel((significand + h) as int, 2, pow2(down as nat) as int);
}

}
