//! The real numbers that singles stand for, and how near the operations of IEEE 754 come to
//! those on real numbers.
use crate::arith::{minus, over, plus, times, whole};
use crate::ieee::{
    ieee, is_floor, lemma_floor_exists, lemma_nearest_exact,
    lemma_no_later, lemma_signed, lemma_some_magnitudes, nearest, nearest_product,
    nearest_quotient, nearest_sum, signed,
};
use crate::single::{
    lemma_turned_sign, lemma_units_increase, units, units_in_one, Single, EXPONENT_STEP,
    FIVE_EIGHTHS, FOUR, FOUR_FIFTHS, GREATEST, HALF, HUNDREDTH, HUNDRED_THOUSANDTH, INFINITY, ONE,
    SIXTEEN, THIRTY, THREE_FIFTHS, TWO, TWO_HUNDRED_FIFTY_FIVE, TWO_HUNDRED_TWENTY_FIVE, ZERO,
};
use vstd::arithmetic::div_mod::lemma_fundamental_div_mod_converse;
use vstd::arithmetic::power2::{
    lemma2_to64, lemma_pow2_adds, lemma_pow2_pos, lemma_pow2_strictly_increases,
    lemma_pow2_unfold, pow2,
};
use vstd::prelude::*;

verus! {

/// The real number that a single stands for.
pub open spec fn worth(a: Single) -> real {
    (a.value() as real) / (units_in_one() as real)
}

/// Whether a single stands for a real number.
pub open spec fn is_finite(a: Single) -> bool {
    a.magnitude() < INFINITY
}

/// The magnitude of a real number.
pub open spec fn size(x: real) -> real {
    if x < 0 as real {
        -x
    } else {
        x
    }
}

/// By which part of itself a result may be wrong.
pub open spec fn part() -> real {
    1 as real / 0x100_0000 as real
}

/// By how much a result may be wrong that is next to nothing: half a unit.
pub open spec fn speck() -> real {
    1 as real / (2 as real * (units_in_one() as real))
}

/// Whether a real number is not too great for a single by far.
pub open spec fn is_moderate(x: real) -> bool {
    size(x) <= 0x1_0000_0000_0000_0000 as real
}

/// A product of whole numbers is one of real numbers.
pub proof fn lemma_whole_product(a: int, b: int)
    ensures
        (a * b) as real == (a as real) * (b as real),
{
    assert((a * b) as real == (a as real) * (b as real)) by (nonlinear_arith);
}

/// The distance to the next greater magnitude.
proof fn lemma_gap(k: nat)
    requires
        k < INFINITY,
    ensures
        k < 2 * EXPONENT_STEP ==> units(k + 1) == units(k) + 1,
        k >= 2 * EXPONENT_STEP ==> (units(k + 1) - units(k)) * 0x80_0000 <= units(k),
{
    let step = EXPONENT_STEP as nat;
    lemma2_to64();
    let e = k / step;
    let f = k % step;
    if e >= 1 {
        let q = pow2((e - 1) as nat);
        lemma_pow2_pos((e - 1) as nat);
        assert(units(k) == (f + step) * q);
        if f + 1 < step {
            lemma_fundamental_div_mod_converse((k + 1) as int, step as int, e as int, (f + 1) as int);
            assert(units(k + 1) == (f + 1 + step) * q);
            assert((f + 1 + step) * q == (f + step) * q + q) by (nonlinear_arith);
        } else {
            lemma_fundamental_div_mod_converse((k + 1) as int, step as int, (e + 1) as int, 0);
            lemma_pow2_unfold(e);
            assert(units(k + 1) == step * pow2(e));
            assert(step * (2 * q) == (f + step) * q + q) by (nonlinear_arith)
                requires
                    f + 1 == step,
            ;
        }
        assert(q * step <= (f + step) * q) by (nonlinear_arith)
            requires
                f >= 0,
                q >= 0,
        ;
        if k < 2 * step {
            assert(q == 1);
        }
    } else if k + 1 == step {
        lemma_fundamental_div_mod_converse((k + 1) as int, step as int, 1, 0);
        assert(units(k + 1) == step * pow2(0));
    }
}

/// How far a quotient is from the nearest magnitude.
pub proof fn lemma_nearest_error(n: nat, d: nat)
    requires
        d > 0,
        n <= units(GREATEST as nat) * d,
    ensures
        nearest(n, d) < INFINITY,
        ({
            let e = units(nearest(n, d)) * d - n;
            &&& (-n <= e * 0x100_0000 <= n) || (-d <= 2 * e <= d)
            &&& d == 1 ==> -n <= e * 0x100_0000 <= n
        }),
{
    lemma_units_increase(GREATEST as nat, INFINITY as nat);
    let (g, i) = (units(GREATEST as nat), units(INFINITY as nat));
    assert(g * d < i * d) by (nonlinear_arith)
        requires
            g < i,
            d > 0,
    ;
    lemma_floor_exists(n, d, INFINITY as nat);
    let k = choose|k: nat| is_floor(n, d, k);
    lemma_gap(k);
    let (x, y) = (units(k), units(k + 1));
    let gap = y - x;
    let m = nearest(n, d);
    if n == g * d {
        lemma_nearest_exact(n, d, GREATEST as nat);
    } else {
        if k >= GREATEST {
            lemma_no_later(GREATEST as nat, k, d);
        }
        assert(m <= k + 1);
    }
    let e = units(m) * d - n;
    assert((x + y) * d == x * d + y * d && gap * d == y * d - x * d) by (nonlinear_arith)
        requires
            gap == y - x,
    ;
    assert(-(gap * d) <= 2 * e <= gap * d);
    if k >= 2 * EXPONENT_STEP {
        assert((gap * d) * 0x80_0000 <= x * d) by (nonlinear_arith)
            requires
                gap * 0x80_0000 <= x,
                d > 0,
        ;
        assert(-n <= e * 0x100_0000 <= n);
    } else {
        assert(gap * d == d) by (nonlinear_arith)
            requires
                gap == 1,
        ;
        if d == 1 {
            assert(e == 0);
        }
    }
}

/// What is moderate is not above the greatest single.
pub proof fn lemma_greatest()
    ensures
        0x1_0000_0000_0000_0000 * units_in_one() <= units(GREATEST as nat),
        units_in_one() > 0,
{
    let step = EXPONENT_STEP as nat;
    lemma2_to64();
    lemma_pow2_pos(149);
    lemma_fundamental_div_mod_converse(GREATEST as int, step as int, 254, 0x7F_FFFF);
    lemma_pow2_adds(64, 149);
    lemma_pow2_strictly_increases(213, 253);
    let (a, b) = (pow2(213), pow2(253));
    assert(a <= 0xFF_FFFF * b) by (nonlinear_arith)
        requires
            0 <= a < b,
    ;
}

/// The real number of a sign and a magnitude.
proof fn lemma_worth(a: Single)
    ensures
        worth(a) == (if a.is_negative() {
            -((units(a.magnitude()) as real) / (units_in_one() as real))
        } else {
            (units(a.magnitude()) as real) / (units_in_one() as real)
        }),
        units_in_one() > 0,
        (units_in_one() as real) > 0 as real,
{
    lemma_pow2_pos(149);
    let p = units_in_one() as real;
    let u = units(a.magnitude()) as real;
    if a.is_negative() {
        assert(a.value() as real == -u);
        assert((-u) / p == -(u / p)) by (nonlinear_arith)
            requires
                p > 0 as real,
        ;
    }
}

/// A sum is wrong by no more than a small part of itself.
pub proof fn lemma_sum_error(a: Single, b: Single)
    requires
        is_finite(a),
        is_finite(b),
        is_moderate(worth(a) + worth(b)),
    ensures
        is_finite(plus(ieee(), a, b)),
        size(worth(plus(ieee(), a, b)) - (worth(a) + worth(b))) <= part() * size(
            worth(a) + worth(b),
        ),
{
    let r = plus(ieee(), a, b);
    assert(r == nearest_sum(a, b));
    lemma_greatest();
    lemma_worth(a);
    let p = units_in_one();
    let q = p as real;
    let v = a.value() + b.value();
    let (x, y) = (a.value() as real, b.value() as real);
    assert(v as real == x + y);
    assert(x / q + y / q == (x + y) / q) by (nonlinear_arith)
        requires
            q > 0 as real,
    ;
    let w = v as real;
    if v == 0 {
        lemma_signed(a.is_negative() && b.is_negative(), 0);
        assert(r.value() == 0);
        assert(r.value() as real == w);
        assert(w / q == 0 as real) by (nonlinear_arith)
            requires
                w == 0 as real,
                q > 0 as real,
        ;
        assert(worth(r) == 0 as real);
        assert(worth(a) + worth(b) == 0 as real);
        let small = part();
        let none = size(0 as real);
        assert(small * none == 0 as real) by (nonlinear_arith)
            requires
                none == 0 as real,
        ;
    } else {
        let n = if v < 0 {
            (-v) as nat
        } else {
            v as nat
        };
        let bound = 0x1_0000_0000_0000_0000 as real;
        assert(size(w) <= bound * q) by (nonlinear_arith)
            requires
                size(w / q) <= bound,
                q > 0 as real,
        ;
        lemma_whole_product(0x1_0000_0000_0000_0000, p as int);
        assert(n <= 0x1_0000_0000_0000_0000 * p);
        lemma_nearest_error(n, 1);
        let m = nearest(n, 1);
        lemma_signed(v < 0, m);
        let e = r.value() - v;
        assert(-n <= e * 0x100_0000 <= n);
        let z = r.value() as real;
        assert(z - w == e as real);
        let big = 0x100_0000 as real;
        lemma_whole_product(e, 0x100_0000);
        assert(size(w) == n as real);
        assert(size(z - w) * big <= size(w));
        assert(z / q - w / q == (z - w) / q) by (nonlinear_arith)
            requires
                q > 0 as real,
        ;
        let t = z - w;
        assert(size(t / q) <= part() * size(w / q)) by (nonlinear_arith)
            requires
                size(t) * big <= size(w),
                big == 0x100_0000 as real,
                q > 0 as real,
        ;
        assert(worth(r) == z / q);
        assert(worth(a) + worth(b) == w / q);
    }
}

/// The real number of the nearest single to `n / d` units.
proof fn lemma_nearest_worth(n: nat, d: nat, negative: bool, x: real)
    requires
        d > 0,
        x >= 0 as real,
        x <= 0x1_0000_0000_0000_0000 as real,
        n as real == x * (d as real) * (units_in_one() as real),
    ensures
        is_finite(signed(negative, nearest(n, d))),
        size(worth(signed(negative, nearest(n, d))) - (if negative {
            -x
        } else {
            x
        })) <= part() * x + speck(),
{
    lemma_greatest();
    let p = units_in_one();
    let (q, c) = (p as real, d as real);
    let bound = 0x1_0000_0000_0000_0000 as real;
    let y = n as real;
    assert(y <= bound * q * c) by (nonlinear_arith)
        requires
            y == x * c * q,
            0 as real <= x <= bound,
            q > 0 as real,
            c > 0 as real,
    ;
    lemma_whole_product(0x1_0000_0000_0000_0000, p as int);
    lemma_whole_product((0x1_0000_0000_0000_0000 * p) as int, d as int);
    let g = units(GREATEST as nat);
    let low = 0x1_0000_0000_0000_0000 * p;
    assert(low * d <= g * d) by (nonlinear_arith)
        requires
            low <= g,
            d > 0,
    ;
    assert(n <= g * d);
    lemma_nearest_error(n, d);
    let m = nearest(n, d);
    let r = signed(negative, m);
    lemma_signed(negative, m);
    lemma_worth(r);
    let u = units(m) as real;
    let e = units(m) * d - n;
    lemma_whole_product(units(m) as int, d as int);
    lemma_whole_product(e, 0x100_0000);
    lemma_whole_product(2, e);
    let f = e as real;
    assert(f == u * c - y);
    let big = 0x100_0000 as real;
    let half = speck();
    let z = u / q;
    assert(z * q == u) by (nonlinear_arith)
        requires
            z == u / q,
            q > 0 as real,
    ;
    assert(half * (2 as real * q) == 1 as real) by (nonlinear_arith)
        requires
            half == 1 as real / (2 as real * q),
            q > 0 as real,
    ;
    assert(part() * big == 1 as real);
    let small = part();
    assert((z - x) * (c * q) == f) by (nonlinear_arith)
        requires
            z * q == u,
            f == u * c - y,
            y == x * c * q,
    ;
    if -n <= e * 0x100_0000 <= n {
        assert(-(small * x) <= z - x <= small * x) by (nonlinear_arith)
            requires
                (z - x) * (c * q) == f,
                -y <= f * big <= y,
                y == x * c * q,
                small * big == 1 as real,
                big > 0 as real,
                c > 0 as real,
                q > 0 as real,
        ;
    } else {
        assert(-half <= z - x <= half) by (nonlinear_arith)
            requires
                (z - x) * (c * q) == f,
                -c <= 2 as real * f <= c,
                half * (2 as real * q) == 1 as real,
                c > 0 as real,
                q > 0 as real,
        ;
    }
    assert(small * x >= 0 as real && half >= 0 as real) by (nonlinear_arith)
        requires
            small * big == 1 as real,
            big > 0 as real,
            x >= 0 as real,
            half * (2 as real * q) == 1 as real,
            q > 0 as real,
    ;
}

/// A product is wrong by no more than a small part of itself, or next to nothing.
pub proof fn lemma_product_error(a: Single, b: Single)
    requires
        is_finite(a),
        is_finite(b),
        is_moderate(worth(a) * worth(b)),
    ensures
        is_finite(times(ieee(), a, b)),
        size(worth(times(ieee(), a, b)) - worth(a) * worth(b)) <= part() * size(
            worth(a) * worth(b),
        ) + speck(),
{
    let r = times(ieee(), a, b);
    assert(r == nearest_product(a, b));
    lemma_worth(a);
    lemma_worth(b);
    let p = units_in_one();
    let q = p as real;
    let (i, j) = (units(a.magnitude()), units(b.magnitude()));
    let (u, v) = (i as real, j as real);
    let negative = a.is_negative() != b.is_negative();
    let (x, y) = (u / q, v / q);
    assert(x * q == u && y * q == v && x >= 0 as real && y >= 0 as real) by (nonlinear_arith)
        requires
            x == u / q,
            y == v / q,
            q > 0 as real,
            u >= 0 as real,
            v >= 0 as real,
    ;
    let z = x * y;
    let w = worth(a) * worth(b);
    assert(w == (if negative {
        -z
    } else {
        z
    })) by (nonlinear_arith)
        requires
            z == x * y,
            w == worth(a) * worth(b),
            worth(a) == (if a.is_negative() {
                -x
            } else {
                x
            }),
            worth(b) == (if b.is_negative() {
                -y
            } else {
                y
            }),
            negative == (a.is_negative() != b.is_negative()),
    ;
    assert(z >= 0 as real) by (nonlinear_arith)
        requires
            z == x * y,
            x >= 0 as real,
            y >= 0 as real,
    ;
    lemma_whole_product(i as int, j as int);
    let n = (i * j) as nat;
    assert(n as real == z * q * q) by (nonlinear_arith)
        requires
            n as real == u * v,
            x * q == u,
            y * q == v,
            z == x * y,
    ;
    lemma_nearest_worth(n, p, negative, z);
}

/// A quotient is wrong by no more than a small part of itself, or next to nothing.
pub proof fn lemma_quotient_error(a: Single, b: Single)
    requires
        is_finite(a),
        is_finite(b),
        worth(b) != 0 as real,
        is_moderate(worth(a) / worth(b)),
    ensures
        is_finite(over(ieee(), a, b)),
        size(worth(over(ieee(), a, b)) - worth(a) / worth(b)) <= part() * size(
            worth(a) / worth(b),
        ) + speck(),
{
    let r = over(ieee(), a, b);
    assert(r == nearest_quotient(a, b));
    lemma_worth(a);
    lemma_worth(b);
    let p = units_in_one();
    let q = p as real;
    let (i, j) = (units(a.magnitude()), units(b.magnitude()));
    let (u, v) = (i as real, j as real);
    let negative = a.is_negative() != b.is_negative();
    let (x, y) = (u / q, v / q);
    assert(x * q == u && y * q == v && x >= 0 as real && y >= 0 as real) by (nonlinear_arith)
        requires
            x == u / q,
            y == v / q,
            q > 0 as real,
            u >= 0 as real,
            v >= 0 as real,
    ;
    assert(y > 0 as real);
    assert(v > 0 as real) by (nonlinear_arith)
        requires
            y * q == v,
            y > 0 as real,
            q > 0 as real,
    ;
    assert(units(0) == 0);
    assert(b.magnitude() != 0);
    let z = x / y;
    let w = worth(a) / worth(b);
    assert(z * y == x && z >= 0 as real) by (nonlinear_arith)
        requires
            z == x / y,
            y > 0 as real,
            x >= 0 as real,
    ;
    let (wa, wb) = (worth(a), worth(b));
    assert(w == (if negative {
        -z
    } else {
        z
    })) by (nonlinear_arith)
        requires
            z * y == x,
            y > 0 as real,
            w == wa / wb,
            wa == (if a.is_negative() {
                -x
            } else {
                x
            }),
            wb == (if b.is_negative() {
                -y
            } else {
                y
            }),
            negative == (a.is_negative() != b.is_negative()),
    ;
    lemma_whole_product(i as int, p as int);
    let n = (i * p) as nat;
    assert(n as real == z * v * q) by (nonlinear_arith)
        requires
            n as real == u * q,
            x * q == u,
            y * q == v,
            z * y == x,
    ;
    lemma_nearest_worth(n, j, negative, z);
}

/// A difference is wrong by no more than a small part of itself.
pub proof fn lemma_difference_error(a: Single, b: Single)
    requires
        is_finite(a),
        is_finite(b),
        is_moderate(worth(a) - worth(b)),
    ensures
        is_finite(minus(ieee(), a, b)),
        size(worth(minus(ieee(), a, b)) - (worth(a) - worth(b))) <= part() * size(
            worth(a) - worth(b),
        ),
{
    lemma_turned_sign(b);
    lemma_worth(b);
    lemma_worth(b.neg_spec());
    lemma_sum_error(a, b.neg_spec());
    assert(minus(ieee(), a, b) == plus(ieee(), a, b.neg_spec()));
}

/// A whole number that is not too great is a single.
pub proof fn lemma_whole_is_exact(n: u64)
    requires
        n < 0x100_0000,
    ensures
        is_finite(whole(ieee(), n)),
        worth(whole(ieee(), n)) == n as real,
        !whole(ieee(), n).is_negative(),
{
    lemma_pow2_pos(149);
    lemma_representable(n as nat, 149);
    let m = choose|m: nat| m < INFINITY && #[trigger] units(m) == n * pow2(149);
    lemma_nearest_exact(n as nat * units_in_one(), 1, m);
    lemma_signed(false, m);
    let r = whole(ieee(), n);
    lemma_worth(r);
    lemma_whole_product(n as int, units_in_one() as int);
    let (q, x, u) = (units_in_one() as real, n as real, units(m) as real);
    assert(u / q == x) by (nonlinear_arith)
        requires
            u == x * q,
            q > 0 as real,
    ;
}

/// What fits into a significand, times a power of two, is the magnitude of a single.
pub proof fn lemma_representable(k: nat, s: nat)
    requires
        k < 0x100_0000,
        s <= 253,
    ensures
        exists|m: nat| m < INFINITY && #[trigger] units(m) == k * pow2(s),
    decreases s,
{
    let step = EXPONENT_STEP as nat;
    lemma2_to64();
    if s == 0 {
        if k >= step {
            lemma_fundamental_div_mod_converse(k as int, step as int, 1, k - step);
        }
        assert(units(k) == k * pow2(0));
    } else if k < step {
        lemma_representable(2 * k, (s - 1) as nat);
        lemma_pow2_unfold(s);
        let h = pow2((s - 1) as nat);
        assert((2 * k) * h == k * (2 * h)) by (nonlinear_arith);
    } else {
        let m = (s + 1) * step + (k - step);
        lemma_fundamental_div_mod_converse(m as int, step as int, (s + 1) as int, k - step);
        assert(units(m as nat) == k * pow2(s));
    }
}

/// Some singles and the real numbers that they stand for.
pub proof fn lemma_constants()
    ensures
        worth(Single { bits: ZERO }) == 0 as real,
        worth(Single { bits: HALF }) == 1 as real / 2 as real,
        worth(Single { bits: ONE }) == 1 as real,
        worth(Single { bits: TWO }) == 2 as real,
        worth(Single { bits: FOUR }) == 4 as real,
        worth(Single { bits: SIXTEEN }) == 16 as real,
        worth(Single { bits: TWO_HUNDRED_FIFTY_FIVE }) == 255 as real,
{
    let p = units_in_one();
    let q = p as real;
    lemma_pow2_pos(149);
    lemma_some_magnitudes();
    lemma2_to64();
    let step = EXPONENT_STEP as int;
    lemma_fundamental_div_mod_converse(HALF as int, step, 126, 0);
    lemma_fundamental_div_mod_converse(TWO as int, step, 128, 0);
    lemma_fundamental_div_mod_converse(FOUR as int, step, 129, 0);
    lemma_fundamental_div_mod_converse(SIXTEEN as int, step, 131, 0);
    lemma_pow2_adds(23, 125);
    lemma_pow2_adds(23, 127);
    lemma_pow2_adds(23, 128);
    lemma_pow2_adds(23, 130);
    lemma_pow2_adds(1, 148);
    lemma_pow2_adds(1, 149);
    lemma_pow2_adds(2, 149);
    lemma_pow2_adds(4, 149);
    assert(units(HALF as nat) * 2 == p);
    assert(units(TWO as nat) == 2 * p);
    assert(units(FOUR as nat) == 4 * p);
    assert(units(SIXTEEN as nat) == 16 * p);
    lemma_worth(Single { bits: ZERO });
    lemma_worth(Single { bits: HALF });
    lemma_worth(Single { bits: ONE });
    lemma_worth(Single { bits: TWO });
    lemma_worth(Single { bits: FOUR });
    lemma_worth(Single { bits: SIXTEEN });
    lemma_worth(Single { bits: TWO_HUNDRED_FIFTY_FIVE });
    let h = units(HALF as nat) as real;
    assert(h * 2 as real == q);
    assert(h / q == 1 as real / 2 as real && q / q == 1 as real && 0 as real / q == 0 as real && (
    2 as real * q) / q == 2 as real && (4 as real * q) / q == 4 as real && (16 as real * q) / q
        == 16 as real && (255 as real * q) / q == 255 as real) by (nonlinear_arith)
        requires
            h * 2 as real == q,
            q > 0 as real,
    ;
}

/// Singles are ordered as the real numbers that they stand for.
pub proof fn lemma_order(a: Single, b: Single)
    requires
        is_finite(a),
        is_finite(b),
    ensures
        a.lt(b) == (worth(a) < worth(b)),
        a.ge(b) == (worth(a) >= worth(b)),
{
    lemma_pow2_pos(149);
    let (x, y, q) = (a.value() as real, b.value() as real, units_in_one() as real);
    assert((x / q < y / q) == (x < y)) by (nonlinear_arith)
        requires
            q > 0 as real,
    ;
}

/// The sign of a single is that of the real number, where that is not zero.
pub proof fn lemma_sign(a: Single)
    ensures
        worth(a) > 0 as real ==> !a.is_negative(),
        worth(a) < 0 as real ==> a.is_negative(),
        !a.is_negative() ==> worth(a) >= 0 as real,
        a.is_negative() ==> worth(a) <= 0 as real,
{
    lemma_worth(a);
    let (u, q) = (units(a.magnitude()) as real, units_in_one() as real);
    assert(u / q >= 0 as real) by (nonlinear_arith)
        requires
            u >= 0 as real,
            q > 0 as real,
    ;
}

/// The byte that a real number is rounded to.
pub proof fn lemma_rounded(a: Single)
    requires
        is_finite(a),
    ensures
        a.rounded() <= 255,
        a.rounded() < 255 && worth(a) >= 0 as real ==> worth(a) < a.rounded() as real + 1 as real
            / 2 as real,
        a.rounded() > 0 ==> worth(a) >= a.rounded() as real - 1 as real / 2 as real,
{
    lemma_sign(a);
    lemma_worth(a);
    if !a.is_negative() {
        let p = units_in_one() as int;
        let v = a.value();
        let k = (2 * v + p) / (2 * p);
        vstd::arithmetic::div_mod::lemma_fundamental_div_mod(2 * v + p, 2 * p);
        let rem = (2 * v + p) % (2 * p);
        assert(0 <= rem < 2 * p);
        assert((2 * p) * k == 2 * (p * k)) by (nonlinear_arith);
        lemma_whole_product(p, k);
        let (x, q, c) = (v as real, p as real, k as real);
        assert(2 as real * (q * c) <= 2 as real * x + q);
        assert(2 as real * x + q < 2 as real * (q * c) + 2 as real * q);
        assert(c - 1 as real / 2 as real <= x / q && x / q < c + 1 as real / 2 as real)
            by (nonlinear_arith)
            requires
                2 as real * (q * c) <= 2 as real * x + q,
                2 as real * x + q < 2 as real * (q * c) + 2 as real * q,
                q > 0 as real,
        ;
    } else {
        assert(a.rounded() == 0);
    }
}

/// The whole number that a real number is truncated to.
pub proof fn lemma_truncated(a: Single, max: nat)
    requires
        is_finite(a),
    ensures
        a.truncated(max) <= max,
        a.truncated(max) < max ==> worth(a) < a.truncated(max) as real + 1 as real,
        a.truncated(max) > 0 ==> worth(a) >= a.truncated(max) as real,
{
    lemma_sign(a);
    lemma_worth(a);
    if !a.is_negative() {
        let p = units_in_one() as int;
        let v = a.value();
        let k = v / p;
        vstd::arithmetic::div_mod::lemma_fundamental_div_mod(v, p);
        let rem = v % p;
        assert(0 <= rem < p);
        lemma_whole_product(p, k);
        let (x, q, c) = (v as real, p as real, k as real);
        assert(q * c <= x && x < q * c + q);
        assert(c <= x / q && x / q < c + 1 as real) by (nonlinear_arith)
            requires
                q * c <= x,
                x < q * c + q,
                q > 0 as real,
        ;
        if k >= max {
            assert(c >= max as real);
        }
    }
}

/// A result that is next to nothing is wrong by less than a small part of one.
pub proof fn lemma_speck()
    ensures
        (0 as real) < speck(),
        speck() <= part(),
{
    lemma_pow2_strictly_increases(24, 149);
    lemma2_to64();
    let q = units_in_one() as real;
    let d = 2 as real * q;
    lemma_reciprocal(d);
    let r = speck();
    if r > part() {
        assert(r * d >= part() * d) by (nonlinear_arith)
            requires
                r > part(),
                d > 0 as real,
        ;
        lemma_share(d, d);
    }
}

/// A part of one, taken as often as there are parts, is one.
proof fn lemma_reciprocal(d: real)
    requires
        d > 0 as real,
    ensures
        (1 as real / d) * d == 1 as real,
        1 as real / d > 0 as real,
{
    let r = 1 as real / d;
    assert(r * d == 1 as real) by (nonlinear_arith)
        requires
            r == 1 as real / d,
            d > 0 as real,
    ;
    if r <= 0 as real {
        assert(r * d <= 0 as real) by (nonlinear_arith)
            requires
                r <= 0 as real,
                d > 0 as real,
        ;
    }
}

/// The small part of a lesser number is less.
pub proof fn lemma_share(x: real, m: real)
    requires
        x <= m,
    ensures
        part() * x <= part() * m,
        part() * m == m / 0x100_0000 as real,
{
    let p = part();
    assert(p * x <= p * m && p * m == m / 0x100_0000 as real) by (nonlinear_arith)
        requires
            p == 1 as real / 0x100_0000 as real,
            x <= m,
    ;
}

/// By how much a sum up to `m` may be wrong.
pub proof fn lemma_sum_within(a: Single, b: Single, m: real)
    requires
        is_finite(a),
        is_finite(b),
        size(worth(a) + worth(b)) <= m,
        m <= 0x1_0000_0000_0000_0000 as real,
    ensures
        is_finite(plus(ieee(), a, b)),
        size(worth(plus(ieee(), a, b)) - (worth(a) + worth(b))) <= m / 0x100_0000 as real,
{
    lemma_sum_error(a, b);
    lemma_share(size(worth(a) + worth(b)), m);
}

/// By how much a difference up to `m` may be wrong.
pub proof fn lemma_difference_within(a: Single, b: Single, m: real)
    requires
        is_finite(a),
        is_finite(b),
        size(worth(a) - worth(b)) <= m,
        m <= 0x1_0000_0000_0000_0000 as real,
    ensures
        is_finite(minus(ieee(), a, b)),
        size(worth(minus(ieee(), a, b)) - (worth(a) - worth(b))) <= m / 0x100_0000 as real,
{
    lemma_difference_error(a, b);
    lemma_share(size(worth(a) - worth(b)), m);
}

/// By how much a product up to `m` may be wrong.
pub proof fn lemma_product_within(a: Single, b: Single, m: real)
    requires
        is_finite(a),
        is_finite(b),
        size(worth(a) * worth(b)) <= m,
        m <= 0x1_0000_0000_0000_0000 as real,
    ensures
        is_finite(times(ieee(), a, b)),
        size(worth(times(ieee(), a, b)) - worth(a) * worth(b)) <= (m + 1 as real)
            / 0x100_0000 as real,
{
    lemma_product_error(a, b);
    lemma_share(size(worth(a) * worth(b)), m);
    lemma_speck();
}

/// By how much a quotient up to `m` may be wrong.
pub proof fn lemma_quotient_within(a: Single, b: Single, m: real)
    requires
        is_finite(a),
        is_finite(b),
        worth(b) != 0 as real,
        size(worth(a) / worth(b)) <= m,
        m <= 0x1_0000_0000_0000_0000 as real,
    ensures
        is_finite(over(ieee(), a, b)),
        size(worth(over(ieee(), a, b)) - worth(a) / worth(b)) <= (m + 1 as real)
            / 0x100_0000 as real,
{
    lemma_quotient_error(a, b);
    lemma_share(size(worth(a) / worth(b)), m);
    lemma_speck();
}

/// By how much a product up to `m` may be wrong, where `m` is not next to nothing.
pub proof fn lemma_product_near(a: Single, b: Single, m: real)
    requires
        is_finite(a),
        is_finite(b),
        size(worth(a) * worth(b)) <= m,
        1 as real / 1000 as real <= m <= 0x1_0000_0000_0000_0000 as real,
    ensures
        is_finite(times(ieee(), a, b)),
        size(worth(times(ieee(), a, b)) - worth(a) * worth(b)) <= 2 as real * m
            / 0x100_0000 as real,
{
    lemma_product_error(a, b);
    lemma_share(size(worth(a) * worth(b)), m);
    lemma_tiny();
}

/// By how much a quotient up to `m` may be wrong, where `m` is not next to nothing.
pub proof fn lemma_quotient_near(a: Single, b: Single, m: real)
    requires
        is_finite(a),
        is_finite(b),
        worth(b) != 0 as real,
        size(worth(a) / worth(b)) <= m,
        1 as real / 1000 as real <= m <= 0x1_0000_0000_0000_0000 as real,
    ensures
        is_finite(over(ieee(), a, b)),
        size(worth(over(ieee(), a, b)) - worth(a) / worth(b)) <= 2 as real * m
            / 0x100_0000 as real,
{
    lemma_quotient_error(a, b);
    lemma_share(size(worth(a) / worth(b)), m);
    lemma_tiny();
}

proof fn lemma_tiny()
    ensures
        (0 as real) < speck(),
        speck() <= 1 as real / 1000 as real / 0x100_0000 as real,
{
    lemma_pow2_strictly_increases(40, 149);
    lemma_pow2_adds(20, 20);
    lemma2_to64();
    let q = units_in_one() as real;
    let d = 2 as real * q;
    lemma_reciprocal(d);
    let (r, c) = (speck(), 1 as real / 0x100_0000_0000 as real);
    assert(c * d == d / 0x100_0000_0000 as real) by (nonlinear_arith)
        requires
            c == 1 as real / 0x100_0000_0000 as real,
    ;
    if r > c {
        assert(r * d >= c * d) by (nonlinear_arith)
            requires
                r > c,
                d > 0 as real,
        ;
    }
}

/// The greater factor makes the greater product.
pub proof fn lemma_scaled(c: real, d: real, m: real, e: real)
    requires
        0 as real <= c <= m,
        size(d) <= e,
    ensures
        size(c * d) <= m * e,
{
    assert(-(m * e) <= c * d && c * d <= m * e) by (nonlinear_arith)
        requires
            0 as real <= c <= m,
            -e <= d,
            d <= e,
    ;
}

/// The real number of a bit pattern with exponent `e` and fraction `f`.
proof fn lemma_literal(bits: u32, e: nat, f: nat, d: nat)
    requires
        bits == e * EXPONENT_STEP + f,
        f < EXPONENT_STEP,
        1 <= e <= 149,
        pow2((150 - e) as nat) == d,
    ensures
        is_finite(Single { bits }),
        worth(Single { bits }) == (f + EXPONENT_STEP) as real / d as real,
{
    let step = EXPONENT_STEP as int;
    lemma_fundamental_div_mod_converse(bits as int, step, e as int, f as int);
    let (a, b) = (pow2((e - 1) as nat), pow2((150 - e) as nat));
    lemma_pow2_adds((e - 1) as nat, (150 - e) as nat);
    lemma_pow2_pos((e - 1) as nat);
    lemma_pow2_pos((150 - e) as nat);
    let single = Single { bits };
    assert(single.magnitude() == bits);
    assert(!single.is_negative());
    let k = f + step;
    assert(units(bits as nat) == k * a);
    lemma_whole_product(k as int, a as int);
    lemma_whole_product(a as int, b as int);
    let (x, y, z) = (k as real, a as real, b as real);
    lemma_shortened(x, y, z);
}

/// A fraction may be shortened.
proof fn lemma_shortened(x: real, y: real, z: real)
    requires
        y > 0 as real,
        z > 0 as real,
    ensures
        (x * y) / (y * z) == x / z,
{
    let (p, d) = (x / z, y * z);
    assert(p * z == x) by (nonlinear_arith)
        requires
            p == x / z,
            z > 0 as real,
    ;
    assert(d > 0 as real) by (nonlinear_arith)
        requires
            d == y * z,
            y > 0 as real,
            z > 0 as real,
    ;
    assert(p * (y * z) == (p * z) * y) by (nonlinear_arith);
    let n = p * d;
    assert(n / d == p) by (nonlinear_arith)
        requires
            n == p * d,
            d > 0 as real,
    ;
}

/// Whether a bit pattern stands for a real number, as near as a single can.
pub open spec fn stands_for(bits: u32, x: real) -> bool {
    is_finite(Single { bits }) && size(worth(Single { bits }) - x) <= part() * x
}

/// The bit patterns are those of the numbers they are named after.
pub proof fn law_constants_have_their_names()
    ensures
        worth(Single { bits: FIVE_EIGHTHS }) == 5 as real / 8 as real,
        worth(Single { bits: THIRTY }) == 30 as real,
        worth(Single { bits: TWO_HUNDRED_TWENTY_FIVE }) == 225 as real,
        stands_for(HUNDRED_THOUSANDTH, 1 as real / 100_000 as real),
        stands_for(HUNDREDTH, 1 as real / 100 as real),
        stands_for(THREE_FIFTHS, 3 as real / 5 as real),
        stands_for(FOUR_FIFTHS, 4 as real / 5 as real),
{
    lemma2_to64();
    lemma_pow2_adds(20, 20);
    lemma_literal(HUNDRED_THOUSANDTH, 110, 0x27_C5AC, 0x100_0000_0000);
    lemma_literal(HUNDREDTH, 120, 0x23_D70A, 0x4000_0000);
    lemma_literal(THREE_FIFTHS, 126, 0x19_999A, 0x100_0000);
    lemma_literal(FIVE_EIGHTHS, 126, 0x20_0000, 0x100_0000);
    lemma_literal(FOUR_FIFTHS, 126, 0x4C_CCCD, 0x100_0000);
    lemma_literal(THIRTY, 131, 0x70_0000, 0x8_0000);
    lemma_literal(TWO_HUNDRED_TWENTY_FIVE, 134, 0x61_0000, 0x1_0000);
}

/// The greatest single is greater than what is too great by far.
pub proof fn lemma_greatest_worth()
    ensures
        is_finite(Single { bits: GREATEST }),
        worth(Single { bits: GREATEST }) > 0x1_0000_0000_0000_0000 as real,
{
    lemma_greatest_by_far();
    let (k, p) = (0x1_0000_0000_0000_0001int, units_in_one() as int);
    lemma_whole_product(k, p);
    let (x, y, q) = (units(GREATEST as nat) as real, k as real, p as real);
    assert(x / q >= y) by (nonlinear_arith)
        requires
            x >= y * q,
            q > 0 as real,
    ;
}

proof fn lemma_greatest_by_far()
    ensures
        0x1_0000_0000_0000_0001 * units_in_one() <= units(GREATEST as nat),
        units_in_one() > 0,
{
    let step = EXPONENT_STEP as nat;
    lemma2_to64();
    lemma_pow2_pos(149);
    lemma_fundamental_div_mod_converse(GREATEST as int, step as int, 254, 0x7F_FFFF);
    lemma_pow2_adds(64, 149);
    lemma_pow2_strictly_increases(213, 253);
    lemma_pow2_strictly_increases(149, 253);
    let (a, b, c) = (pow2(213), pow2(253), pow2(149));
    assert(a + c <= 0xFF_FFFF * b) by (nonlinear_arith)
        requires
            0 <= a < b,
            0 <= c < b,
    ;
}

}
