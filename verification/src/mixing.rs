//! How colors are mixed: the four pixels of the canvas that make one of a smoothed image, and a
//! texel with what lies below it.
use crate::arith::{minus, over, plus, times, whole, Meaning};
use crate::ieee::{ieee, law_ieee_is_exact_for_opaque, law_ieee_is_exact_for_zero};
use crate::pixels::Rgba;
use crate::raster::{composed, is_visible, layered, opacity, opaque_is_exact, unpacked};
use crate::reals::{
    is_finite, law_constants_have_their_names, lemma_constants, lemma_difference_within, lemma_order, lemma_product_near, lemma_product_within,
    lemma_quotient_near, lemma_quotient_within, lemma_rounded, lemma_scaled, lemma_sum_within,
    lemma_truncated, lemma_whole_is_exact, size, stands_for, worth,
};
use crate::render::{alpha_sum, averaged, brightness_of, weighed_sum, Side};
use crate::smoothing::{
    lemma_product_of_whole, lemma_quotient_of_whole, lemma_whole_constants, lemma_whole_sum,
};
use crate::single::{Single, FOUR, HUNDREDTH, ONE, TWO_HUNDRED_FIFTY_FIVE, ZERO};
use vstd::prelude::*;

verus! {

/// Whether a byte is the nearest whole number to a real number, but for a thousandth.
pub open spec fn is_nearest(byte: u8, x: real) -> bool {
    size(byte as real - x) <= 501 as real / 1000 as real
}

/// How opaque a pixel is, as a part of one.
pub open spec fn share(a: u8) -> real {
    a as real / 255 as real
}

proof fn lemma_opacity(a: u8, m: real)
    requires
        share(a) <= m,
        1 as real / 1000 as real <= m <= 4 as real,
    ensures
        is_finite(opacity(ieee(), a)),
        size(worth(opacity(ieee(), a)) - share(a)) <= 2 as real * m / 0x100_0000 as real,
{
    lemma_constants();
    lemma_whole_is_exact(a as u64);
    let (x, y) = (whole(ieee(), a as u64), Single { bits: TWO_HUNDRED_FIFTY_FIVE });
    let (p, q) = (worth(x), worth(y));
    assert(p / q == share(a)) by (nonlinear_arith)
        requires
            p == a as real,
            q == 255 as real,
            share(a) == a as real / 255 as real,
    ;
    lemma_quotient_near(x, y, m);
}

/// A channel weighed by an alpha.
proof fn lemma_part(c: u8, a: u8, m: real)
    requires
        share(a) <= m,
        1 as real / 1000 as real <= m <= 4 as real,
    ensures
        ({
            let t = times(ieee(), whole(ieee(), c as u64), opacity(ieee(), a));
            &&& is_finite(t)
            &&& size(worth(t) - c as real * share(a)) <= 1022 as real * m / 0x100_0000 as real
            &&& 0 as real <= c as real * share(a) <= 255 as real * share(a)
        }),
{
    lemma_whole_is_exact(c as u64);
    lemma_opacity(a, m);
    let (x, y) = (whole(ieee(), c as u64), opacity(ieee(), a));
    let (p, q, s) = (c as real, worth(y), share(a));
    lemma_scaled(p, q - s, 255 as real, 2 as real * m / 0x100_0000 as real);
    assert(p * (q - s) == p * q - p * s) by (nonlinear_arith);
    assert(0 as real <= p * s <= 255 as real * s) by (nonlinear_arith)
        requires
            0 as real <= p <= 255 as real,
            0 as real <= s,
    ;
    lemma_product_near(x, y, 256 as real * m);
}

/// What the four alphas make together.
pub open spec fn shares(alphas: (u8, u8, u8, u8)) -> real {
    share(alphas.0) + share(alphas.1) + share(alphas.2) + share(alphas.3)
}

/// What the four channels make together, each weighed by its alpha.
pub open spec fn weighed_shares(channels: (u8, u8, u8, u8), alphas: (u8, u8, u8, u8)) -> real {
    channels.0 as real * share(alphas.0) + channels.1 as real * share(alphas.1) + channels.2 as real
        * share(alphas.2) + channels.3 as real * share(alphas.3)
}

/// A sum of two numbers that are near others.
proof fn lemma_added(a: Single, x: real, e: real, b: Single, y: real, f: real, bound: real)
    requires
        is_finite(a),
        is_finite(b),
        size(worth(a) - x) <= e,
        size(worth(b) - y) <= f,
        0 as real <= x,
        0 as real <= y,
        x + y + e + f <= bound <= 10000 as real,
    ensures
        is_finite(plus(ieee(), a, b)),
        size(worth(plus(ieee(), a, b)) - (x + y)) <= e + f + bound / 0x100_0000 as real,
{
    lemma_sum_within(a, b, bound);
}

/// A sum of four numbers that are near others.
proof fn lemma_four_added(
    b: (Single, Single, Single, Single),
    x: (real, real, real, real),
    f: real,
    bound: real,
)
    requires
        is_finite(b.0) && is_finite(b.1) && is_finite(b.2) && is_finite(b.3),
        size(worth(b.0) - x.0) <= f,
        size(worth(b.1) - x.1) <= f,
        size(worth(b.2) - x.2) <= f,
        size(worth(b.3) - x.3) <= f,
        0 as real <= x.0 && 0 as real <= x.1 && 0 as real <= x.2 && 0 as real <= x.3,
        x.0 + x.1 + x.2 + x.3 + 4 as real * (f + bound / 0x100_0000 as real) <= bound
            <= 10000 as real,
    ensures
        ({
            let zero = Single { bits: ZERO };
            let first = plus(ieee(), zero, b.0);
            let second = plus(ieee(), first, b.1);
            let third = plus(ieee(), second, b.2);
            let sum = plus(ieee(), third, b.3);
            &&& is_finite(sum)
            &&& size(worth(sum) - (x.0 + x.1 + x.2 + x.3)) <= 4 as real * (f + bound
                / 0x100_0000 as real)
        }),
{
    lemma_constants();
    let zero = Single { bits: ZERO };
    let step = f + bound / 0x100_0000 as real;
    let none = 0 as real;
    lemma_added(zero, none, none, b.0, x.0, f, bound);
    let first = plus(ieee(), zero, b.0);
    lemma_added(first, x.0, step, b.1, x.1, f, bound);
    let second = plus(ieee(), first, b.1);
    lemma_added(second, x.0 + x.1, 2 as real * step, b.2, x.2, f, bound);
    let third = plus(ieee(), second, b.2);
    lemma_added(third, x.0 + x.1 + x.2, 3 as real * step, b.3, x.3, f, bound);
}

proof fn lemma_shares(alphas: (u8, u8, u8, u8))
    requires
        alphas.0 > 0 || alphas.1 > 0 || alphas.2 > 0 || alphas.3 > 0,
    ensures
        1 as real / 255 as real <= shares(alphas) <= 4 as real,
        0 as real <= share(alphas.0) <= shares(alphas),
        0 as real <= share(alphas.1) <= shares(alphas),
        0 as real <= share(alphas.2) <= shares(alphas),
        0 as real <= share(alphas.3) <= shares(alphas),
{
}

proof fn lemma_alpha_sum(alphas: (u8, u8, u8, u8))
    requires
        alphas.0 > 0 || alphas.1 > 0 || alphas.2 > 0 || alphas.3 > 0,
    ensures
        is_finite(alpha_sum(ieee(), alphas)),
        size(worth(alpha_sum(ieee(), alphas)) - shares(alphas)) <= 16 as real * shares(alphas)
            / 0x100_0000 as real,
{
    lemma_shares(alphas);
    let m = shares(alphas);
    lemma_opacity(alphas.0, m);
    lemma_opacity(alphas.1, m);
    lemma_opacity(alphas.2, m);
    lemma_opacity(alphas.3, m);
    let b = (
        opacity(ieee(), alphas.0),
        opacity(ieee(), alphas.1),
        opacity(ieee(), alphas.2),
        opacity(ieee(), alphas.3),
    );
    let x = (share(alphas.0), share(alphas.1), share(alphas.2), share(alphas.3));
    lemma_four_added(b, x, 2 as real * m / 0x100_0000 as real, 2 as real * m);
}

proof fn lemma_weighed_sum(channels: (u8, u8, u8, u8), alphas: (u8, u8, u8, u8))
    requires
        alphas.0 > 0 || alphas.1 > 0 || alphas.2 > 0 || alphas.3 > 0,
    ensures
        is_finite(weighed_sum(ieee(), channels, alphas)),
        0 as real <= weighed_shares(channels, alphas) <= 255 as real * shares(alphas),
        size(worth(weighed_sum(ieee(), channels, alphas)) - weighed_shares(channels, alphas))
            <= 5200 as real * shares(alphas) / 0x100_0000 as real,
{
    lemma_shares(alphas);
    let m = shares(alphas);
    lemma_part(channels.0, alphas.0, m);
    lemma_part(channels.1, alphas.1, m);
    lemma_part(channels.2, alphas.2, m);
    lemma_part(channels.3, alphas.3, m);
    let b = (
        times(ieee(), whole(ieee(), channels.0 as u64), opacity(ieee(), alphas.0)),
        times(ieee(), whole(ieee(), channels.1 as u64), opacity(ieee(), alphas.1)),
        times(ieee(), whole(ieee(), channels.2 as u64), opacity(ieee(), alphas.2)),
        times(ieee(), whole(ieee(), channels.3 as u64), opacity(ieee(), alphas.3)),
    );
    let x = (
        channels.0 as real * share(alphas.0),
        channels.1 as real * share(alphas.1),
        channels.2 as real * share(alphas.2),
        channels.3 as real * share(alphas.3),
    );
    lemma_four_added(b, x, 1022 as real * m / 0x100_0000 as real, 256 as real * m);
}

/// Quotients of numbers that are near each other are near each other.
pub proof fn lemma_near_quotients(w: real, s: real, v: real, r: real, c: real, e: real)
    requires
        s > 0 as real,
        r > 0 as real,
        0 as real <= w <= c * s,
        size(v - w) + c * size(r - s) <= e * r,
    ensures
        0 as real <= w / s <= c,
        size(v / r - w / s) <= e,
{
    let (q, p) = (w / s, v / r);
    assert(q * s == w && p * r == v) by (nonlinear_arith)
        requires
            q == w / s,
            p == v / r,
            s > 0 as real,
            r > 0 as real,
    ;
    assert(0 as real <= q <= c) by (nonlinear_arith)
        requires
            q * s == w,
            0 as real <= w <= c * s,
            s > 0 as real,
    ;
    let d = size(r - s);
    lemma_scaled(q, r - s, c, d);
    assert(q * (r - s) == q * r - q * s) by (nonlinear_arith);
    assert((p - q) * r == p * r - q * r) by (nonlinear_arith);
    let f = p - q;
    assert(-e <= f && f <= e) by (nonlinear_arith)
        requires
            -(e * r) <= f * r,
            f * r <= e * r,
            r > 0 as real,
    ;
}

/// The channel that stands for four.
pub open spec fn is_mean_channel(
    byte: u8,
    channels: (u8, u8, u8, u8),
    alphas: (u8, u8, u8, u8),
) -> bool {
    is_nearest(byte, weighed_shares(channels, alphas) / shares(alphas))
}

/// A single near a real number is rounded to a byte near it.
proof fn lemma_rounded_near(a: Single, x: real)
    requires
        is_finite(a),
        0 as real <= x <= 255 as real,
        size(worth(a) - x) <= 1 as real / 1000 as real,
    ensures
        is_nearest(a.rounded() as u8, x),
{
    lemma_rounded(a);
}

proof fn lemma_mean_errors(w: real, m: real, v: real, r: real)
    requires
        m > 0 as real,
        size(v - w) <= 5200 as real * m / 0x100_0000 as real,
        size(r - m) <= 16 as real * m / 0x100_0000 as real,
    ensures
        r > 0 as real,
        size(v - w) + 255 as real * size(r - m) <= (8 as real / 10000 as real) * r,
{
}

proof fn lemma_mean_quotient(a: Single, b: Single, w: real, m: real)
    requires
        is_finite(a),
        is_finite(b),
        m > 0 as real,
        0 as real <= w <= 255 as real * m,
        size(worth(a) - w) <= 5200 as real * m / 0x100_0000 as real,
        size(worth(b) - m) <= 16 as real * m / 0x100_0000 as real,
    ensures
        (Single { bits: ZERO }).lt(b),
        is_nearest(over(ieee(), a, b).rounded() as u8, w / m),
{
    lemma_constants();
    let (v, r) = (worth(a), worth(b));
    lemma_mean_errors(w, m, v, r);
    lemma_near_quotients(w, m, v, r, 255 as real, 8 as real / 10000 as real);
    lemma_order(Single { bits: ZERO }, b);
    lemma_quotient_within(a, b, 256 as real);
    lemma_rounded_near(over(ieee(), a, b), w / m);
}

proof fn lemma_mean_channel(channels: (u8, u8, u8, u8), alphas: (u8, u8, u8, u8))
    requires
        alphas.0 > 0 || alphas.1 > 0 || alphas.2 > 0 || alphas.3 > 0,
    ensures
        (Single { bits: ZERO }).lt(alpha_sum(ieee(), alphas)),
        is_mean_channel(
            over(
                ieee(),
                weighed_sum(ieee(), channels, alphas),
                alpha_sum(ieee(), alphas),
            ).rounded() as u8,
            channels,
            alphas,
        ),
{
    lemma_shares(alphas);
    lemma_alpha_sum(alphas);
    lemma_weighed_sum(channels, alphas);
    lemma_mean_quotient(
        weighed_sum(ieee(), channels, alphas),
        alpha_sum(ieee(), alphas),
        weighed_shares(channels, alphas),
        shares(alphas),
    );
}

/// Whether a pixel stands for four: each of its colors is the mean of theirs, where each of the
/// four counts as much as it is opaque, and it is as opaque as they are in the mean; where all are
/// transparent it is nothing.
pub open spec fn is_mean(r: Rgba, p: (Rgba, Rgba, Rgba, Rgba)) -> bool {
    let alphas = (p.0.a, p.1.a, p.2.a, p.3.a);
    if p.0.a == 0 && p.1.a == 0 && p.2.a == 0 && p.3.a == 0 {
        r == (Rgba { r: 0, g: 0, b: 0, a: 0 })
    } else {
        &&& is_mean_channel(r.r, (p.0.r, p.1.r, p.2.r, p.3.r), alphas)
        &&& is_mean_channel(r.g, (p.0.g, p.1.g, p.2.g, p.3.g), alphas)
        &&& is_mean_channel(r.b, (p.0.b, p.1.b, p.2.b, p.3.b), alphas)
        &&& is_nearest(
            r.a,
            (p.0.a as real + p.1.a as real + p.2.a as real + p.3.a as real) / 4 as real,
        )
    }
}

proof fn lemma_mean_alpha(alphas: (u8, u8, u8, u8))
    requires
        alphas.0 > 0 || alphas.1 > 0 || alphas.2 > 0 || alphas.3 > 0,
    ensures
        is_nearest(
            times(
                ieee(),
                over(ieee(), alpha_sum(ieee(), alphas), Single { bits: FOUR }),
                Single { bits: TWO_HUNDRED_FIFTY_FIVE },
            ).rounded() as u8,
            (alphas.0 as real + alphas.1 as real + alphas.2 as real + alphas.3 as real) / 4 as real,
        ),
{
    lemma_shares(alphas);
    lemma_alpha_sum(alphas);
    lemma_mean_of_all(
        alpha_sum(ieee(), alphas),
        alphas.0 as real + alphas.1 as real + alphas.2 as real + alphas.3 as real,
    );
}

proof fn lemma_mean_of_all(a: Single, total: real)
    requires
        is_finite(a),
        0 as real <= total <= 1020 as real,
        size(worth(a) - total / 255 as real) <= 64 as real / 0x100_0000 as real,
    ensures
        is_nearest(
            times(
                ieee(),
                over(ieee(), a, Single { bits: FOUR }),
                Single { bits: TWO_HUNDRED_FIFTY_FIVE },
            ).rounded() as u8,
            total / 4 as real,
        ),
{
    lemma_constants();
    let (four, all) = (Single { bits: FOUR }, Single { bits: TWO_HUNDRED_FIFTY_FIVE });
    let (x, y, z) = (worth(a), worth(four), worth(all));
    assert(x / y == x / 4 as real) by (nonlinear_arith)
        requires
            y == 4 as real,
    ;
    lemma_quotient_within(a, four, 2 as real);
    let q = over(ieee(), a, four);
    let u = worth(q);
    assert(u * z == 255 as real * u) by (nonlinear_arith)
        requires
            z == 255 as real,
    ;
    lemma_product_within(q, all, 256 as real);
    lemma_rounded_near(times(ieee(), q, all), total / 4 as real);
}

/// Nothing at all adds up to nothing.
proof fn lemma_no_alpha()
    ensures
        !(Single { bits: ZERO }).lt(alpha_sum(ieee(), (0, 0, 0, 0))),
        times(
            ieee(),
            over(ieee(), alpha_sum(ieee(), (0, 0, 0, 0)), Single { bits: FOUR }),
            Single { bits: TWO_HUNDRED_FIFTY_FIVE },
        ).rounded() as u8 == 0,
{
    law_ieee_is_exact_for_zero();
    lemma_constants();
    lemma_rounded(Single { bits: ZERO });
}

/// A pixel of a smoothed image stands for the four that make it.
pub proof fn law_smoothing_weighs_by_opacity(p: (Rgba, Rgba, Rgba, Rgba))
    ensures
        is_mean(averaged(ieee(), p), p),
{
    let alphas = (p.0.a, p.1.a, p.2.a, p.3.a);
    if p.0.a == 0 && p.1.a == 0 && p.2.a == 0 && p.3.a == 0 {
        lemma_no_alpha();
    } else {
        lemma_mean_channel((p.0.r, p.1.r, p.2.r, p.3.r), alphas);
        lemma_mean_channel((p.0.g, p.1.g, p.2.g, p.3.g), alphas);
        lemma_mean_channel((p.0.b, p.1.b, p.2.b, p.3.b), alphas);
        lemma_mean_alpha(alphas);
    }
}

/// A product of numbers that are near others.
proof fn lemma_multiplied(
    a: Single,
    x: real,
    e: real,
    b: Single,
    y: real,
    f: real,
    m: real,
    n: real,
    bound: real,
)
    requires
        is_finite(a),
        is_finite(b),
        size(worth(a) - x) <= e,
        size(worth(b) - y) <= f,
        0 as real <= x <= m,
        0 as real <= y <= n,
        f <= 1 as real,
        m * n + (n + 1 as real) * e + m * f <= bound <= 10000 as real,
    ensures
        is_finite(times(ieee(), a, b)),
        size(worth(times(ieee(), a, b)) - x * y) <= (n + 1 as real) * e + m * f + (bound
            + 1 as real) / 0x100_0000 as real,
{
    let (p, q) = (worth(a), worth(b));
    assert(size(q) <= n + 1 as real);
    let (g, k) = (p - x, n + 1 as real);
    assert(-(k * e) <= g * q && g * q <= k * e) by (nonlinear_arith)
        requires
            -e <= g,
            g <= e,
            -k <= q,
            q <= k,
    ;
    lemma_scaled(x, q - y, m, f);
    assert(p * q - x * y == (p - x) * q + x * (q - y)) by (nonlinear_arith);
    assert(0 as real <= x * y <= m * n) by (nonlinear_arith)
        requires
            0 as real <= x <= m,
            0 as real <= y <= n,
    ;
    lemma_product_within(a, b, bound);
}

/// What is cut off behind the point is less than one.
pub open spec fn is_cut(byte: u8, x: real) -> bool {
    x - 21 as real / 20 as real <= byte as real <= x + 1 as real / 20 as real
}

/// How opaque a texel and what lies below it are together.
pub open spec fn covering(s: real, d: real) -> real {
    s + d * (1 as real - s)
}

/// The color of a texel over what lies below it, each weighed by how much of it is seen.
pub open spec fn layer(c: real, s: real, below: real, d: real) -> real {
    (c * s + (below * d) * (1 as real - s)) / covering(s, d)
}

/// How much of what lies below is still seen.
proof fn lemma_covering(a: u8, below: u8)
    requires
        a >= 3,
    ensures
        ({
            let one = Single { bits: ONE };
            let src_a = opacity(ieee(), a);
            let dst_a = opacity(ieee(), below);
            let left = minus(ieee(), one, src_a);
            let out_a = plus(ieee(), src_a, times(ieee(), dst_a, left));
            let (s, d) = (share(a), share(below));
            &&& is_finite(src_a) && size(worth(src_a) - s) <= 2 as real / 0x100_0000 as real
            &&& is_finite(dst_a) && size(worth(dst_a) - d) <= 2 as real / 0x100_0000 as real
            &&& is_finite(left) && size(worth(left) - (1 as real - s)) <= 4 as real
                / 0x100_0000 as real
            &&& is_finite(out_a) && size(worth(out_a) - covering(s, d)) <= 16 as real
                / 0x100_0000 as real
            &&& s <= covering(s, d) <= 1 as real
            &&& 3 as real / 255 as real <= s <= 1 as real
            &&& 0 as real <= d <= 1 as real
        }),
{
    lemma_constants();
    lemma_opacity(a, 1 as real);
    lemma_opacity(below, 1 as real);
    let one = Single { bits: ONE };
    let src_a = opacity(ieee(), a);
    let dst_a = opacity(ieee(), below);
    let (s, d) = (share(a), share(below));
    lemma_difference_within(one, src_a, 2 as real);
    let left = minus(ieee(), one, src_a);
    let e = 1 as real / 0x100_0000 as real;
    let l = 1 as real - s;
    lemma_multiplied(
        dst_a,
        d,
        2 as real * e,
        left,
        l,
        4 as real * e,
        1 as real,
        1 as real,
        2 as real,
    );
    assert(0 as real <= d * l && d * l <= l) by (nonlinear_arith)
        requires
            0 as real <= d <= 1 as real,
            0 as real <= l,
    ;
    lemma_sum_within(src_a, times(ieee(), dst_a, left), 2 as real);
}

/// A channel of a texel over one of the canvas, before the division.
proof fn lemma_layered(
    c: u8,
    brightness: Single,
    src_a: Single,
    s: real,
    below: u8,
    dst_a: Single,
    d: real,
    left: Single,
)
    requires
        is_finite(brightness),
        0 as real <= worth(brightness) <= 1 as real,
        is_finite(src_a) && size(worth(src_a) - s) <= 2 as real / 0x100_0000 as real,
        is_finite(dst_a) && size(worth(dst_a) - d) <= 2 as real / 0x100_0000 as real,
        is_finite(left) && size(worth(left) - (1 as real - s)) <= 4 as real / 0x100_0000 as real,
        0 as real <= s <= 1 as real,
        0 as real <= d <= 1 as real,
    ensures
        ({
            let src = times(ieee(), whole(ieee(), c as u64), brightness);
            let sum = plus(
                ieee(),
                times(ieee(), src, src_a),
                times(ieee(), times(ieee(), whole(ieee(), below as u64), dst_a), left),
            );
            let exact = (c as real * worth(brightness)) * s + (below as real * d) * (1 as real - s);
            &&& is_finite(sum)
            &&& size(worth(sum) - exact) <= 4900 as real / 0x100_0000 as real
            &&& 0 as real <= exact <= 255 as real * covering(s, d)
        }),
{
    lemma_whole_is_exact(c as u64);
    lemma_whole_is_exact(below as u64);
    let (one, e) = (1 as real, 1 as real / 0x100_0000 as real);
    let none = 0 as real;
    let (x, y, l) = (c as real, worth(brightness), 1 as real - s);
    let full = 255 as real;
    lemma_multiplied(whole(ieee(), c as u64), x, none, brightness, y, none, full, one, 256 as real);
    let src = times(ieee(), whole(ieee(), c as u64), brightness);
    assert(0 as real <= x * y <= full) by (nonlinear_arith)
        requires
            0 as real <= x <= full,
            0 as real <= y <= 1 as real,
    ;
    lemma_multiplied(src, x * y, 257 as real * e, src_a, s, 2 as real * e, full, one, 256 as real);
    let z = below as real;
    let whole_below = whole(ieee(), below as u64);
    lemma_multiplied(whole_below, z, none, dst_a, d, 2 as real * e, full, one, 256 as real);
    let seen = times(ieee(), whole_below, dst_a);
    assert(0 as real <= z * d <= full) by (nonlinear_arith)
        requires
            0 as real <= z <= full,
            0 as real <= d <= 1 as real,
    ;
    assert(z * d <= full * d) by (nonlinear_arith)
        requires
            0 as real <= z <= full,
            0 as real <= d,
    ;
    lemma_multiplied(seen, z * d, 800 as real * e, left, l, 4 as real * e, full, one, 256 as real);
    let (g, h) = ((x * y) * s, (z * d) * l);
    let (u, v) = (x * y, z * d);
    assert(0 as real <= u * s <= full * s) by (nonlinear_arith)
        requires
            0 as real <= u <= full,
            0 as real <= s,
    ;
    assert(0 as real <= v * l <= (full * d) * l) by (nonlinear_arith)
        requires
            0 as real <= v <= full * d,
            0 as real <= l,
    ;
    assert((full * d) * l == full * (d * l)) by (nonlinear_arith);
    assert(d * l <= l) by (nonlinear_arith)
        requires
            0 as real <= d <= 1 as real,
            0 as real <= l,
    ;
    lemma_added(
        times(ieee(), src, src_a),
        g,
        1300 as real * e,
        times(ieee(), seen, left),
        h,
        2900 as real * e,
        600 as real,
    );
}

/// A single near a real number is cut to a byte near it.
proof fn lemma_cut(a: Single, x: real, max: nat)
    requires
        is_finite(a),
        0 as real <= x <= 255 as real,
        size(worth(a) - x) <= 1 as real / 20 as real,
        max >= 255,
    ensures
        a.truncated(max) <= 255,
        is_cut(a.truncated(max) as u8, x),
{
    lemma_truncated(a, max);
}

/// A channel of a texel over one of the canvas.
proof fn lemma_layer(c: u8, brightness: Single, a: u8, below: u8, below_a: u8)
    requires
        is_finite(brightness),
        0 as real <= worth(brightness) <= 1 as real,
        a >= 3,
    ensures
        ({
            let src_a = opacity(ieee(), a);
            let dst_a = opacity(ieee(), below_a);
            let left = minus(ieee(), Single { bits: ONE }, src_a);
            let out_a = plus(ieee(), src_a, times(ieee(), dst_a, left));
            &&& (Single { bits: ZERO }).lt(out_a)
            &&& is_cut(
                layered(
                    ieee(),
                    times(ieee(), whole(ieee(), c as u64), brightness),
                    src_a,
                    whole(ieee(), below as u64),
                    dst_a,
                    out_a,
                ).truncated(255) as u8,
                layer(c as real * worth(brightness), share(a), below as real, share(below_a)),
            )
        }),
{
    lemma_constants();
    lemma_covering(a, below_a);
    let src_a = opacity(ieee(), a);
    let dst_a = opacity(ieee(), below_a);
    let left = minus(ieee(), Single { bits: ONE }, src_a);
    let out_a = plus(ieee(), src_a, times(ieee(), dst_a, left));
    let (s, d) = (share(a), share(below_a));
    lemma_layered(c, brightness, src_a, s, below, dst_a, d, left);
    let src = times(ieee(), whole(ieee(), c as u64), brightness);
    let sum = plus(
        ieee(),
        times(ieee(), src, src_a),
        times(ieee(), times(ieee(), whole(ieee(), below as u64), dst_a), left),
    );
    let exact = (c as real * worth(brightness)) * s + (below as real * d) * (1 as real - s);
    lemma_divided(sum, exact, out_a, covering(s, d));
}

proof fn lemma_divided(sum: Single, w: real, out_a: Single, o: real)
    requires
        is_finite(sum),
        is_finite(out_a),
        3 as real / 255 as real <= o <= 1 as real,
        0 as real <= w <= 255 as real * o,
        size(worth(sum) - w) <= 4900 as real / 0x100_0000 as real,
        size(worth(out_a) - o) <= 16 as real / 0x100_0000 as real,
    ensures
        (Single { bits: ZERO }).lt(out_a),
        is_cut(over(ieee(), sum, out_a).truncated(255) as u8, w / o),
{
    lemma_constants();
    let (v, r) = (worth(sum), worth(out_a));
    assert((499 as real / 10000 as real) * r >= 9000 as real / 0x100_0000 as real);
    lemma_near_quotients(w, o, v, r, 255 as real, 499 as real / 10000 as real);
    lemma_order(Single { bits: ZERO }, out_a);
    lemma_quotient_within(sum, out_a, 256 as real);
    lemma_cut(over(ieee(), sum, out_a), w / o, 255);
}

/// Whether a pixel is a texel over what lies below it: as opaque as both are together, and of each
/// color as much as is seen of each, up to what is cut off.
pub open spec fn lies_over(r: Rgba, texel: Rgba, brightness: real, below: Rgba) -> bool {
    let (s, d) = (share(texel.a), share(below.a));
    &&& is_cut(r.r, layer(texel.r as real * brightness, s, below.r as real, d))
    &&& is_cut(r.g, layer(texel.g as real * brightness, s, below.g as real, d))
    &&& is_cut(r.b, layer(texel.b as real * brightness, s, below.b as real, d))
    &&& is_cut(r.a, 255 as real * covering(s, d))
}

proof fn lemma_covering_byte(a: u8, below: u8)
    requires
        a >= 3,
    ensures
        ({
            let src_a = opacity(ieee(), a);
            let left = minus(ieee(), Single { bits: ONE }, src_a);
            let out_a = plus(ieee(), src_a, times(ieee(), opacity(ieee(), below), left));
            let t = times(ieee(), out_a, Single { bits: TWO_HUNDRED_FIFTY_FIVE }).truncated(
                u32::MAX as nat,
            );
            t <= 255 && is_cut(t as u8, 255 as real * covering(share(a), share(below)))
        }),
{
    lemma_constants();
    lemma_covering(a, below);
    let src_a = opacity(ieee(), a);
    let left = minus(ieee(), Single { bits: ONE }, src_a);
    let out_a = plus(ieee(), src_a, times(ieee(), opacity(ieee(), below), left));
    let full = Single { bits: TWO_HUNDRED_FIFTY_FIVE };
    let (u, z) = (worth(out_a), worth(full));
    assert(u * z == 255 as real * u) by (nonlinear_arith)
        requires
            z == 255 as real,
    ;
    lemma_product_within(out_a, full, 256 as real);
    lemma_cut(
        times(ieee(), out_a, full),
        255 as real * covering(share(a), share(below)),
        u32::MAX as nat,
    );
}

/// A channel of a texel over one of the canvas, as a byte.
spec fn channel(sem: Meaning, src: u8, brightness: Single, a: u8, dst: u8, dst_a: u8) -> u8 {
    layered(
        sem,
        times(sem, whole(sem, src as u64), brightness),
        opacity(sem, a),
        whole(sem, dst as u64),
        opacity(sem, dst_a),
        covered(sem, a, dst_a),
    ).truncated(255) as u8
}

/// How opaque a texel and what lies below it are together, as a single.
spec fn covered(sem: Meaning, a: u8, dst_a: u8) -> Single {
    plus(
        sem,
        opacity(sem, a),
        times(sem, opacity(sem, dst_a), minus(sem, Single { bits: ONE }, opacity(sem, a))),
    )
}

/// What a texel over a color comes to, channel by channel.
proof fn lemma_composed(sem: Meaning, texel: Rgba, brightness: Single, under: u32)
    requires
        (Single { bits: ZERO }).lt(covered(sem, texel.a, unpacked(under).a)),
    ensures
        ({
            let below = unpacked(under);
            let r = composed(sem, texel, brightness, under);
            &&& r.r == channel(sem, texel.r, brightness, texel.a, below.r, below.a)
            &&& r.g == channel(sem, texel.g, brightness, texel.a, below.g, below.a)
            &&& r.b == channel(sem, texel.b, brightness, texel.a, below.b, below.a)
            &&& r.a == (times(
                sem,
                covered(sem, texel.a, below.a),
                Single { bits: TWO_HUNDRED_FIFTY_FIVE },
            ).truncated(u32::MAX as nat) % 0x100) as u8
        }),
{
}

proof fn lemma_layer_byte(c: u8, brightness: Single, a: u8, below: u8, below_a: u8)
    requires
        is_finite(brightness),
        0 as real <= worth(brightness) <= 1 as real,
        a >= 3,
    ensures
        (Single { bits: ZERO }).lt(covered(ieee(), a, below_a)),
        is_cut(
            channel(ieee(), c, brightness, a, below, below_a),
            layer(c as real * worth(brightness), share(a), below as real, share(below_a)),
        ),
{
    lemma_layer(c, brightness, a, below, below_a);
}

/// Both together as a byte.
spec fn covered_byte(sem: Meaning, a: u8, dst_a: u8) -> nat {
    times(sem, covered(sem, a, dst_a), Single { bits: TWO_HUNDRED_FIFTY_FIVE }).truncated(
        u32::MAX as nat,
    )
}

proof fn lemma_alpha_byte(a: u8, below: u8)
    requires
        a >= 3,
    ensures
        covered_byte(ieee(), a, below) <= 255,
        is_cut(
            covered_byte(ieee(), a, below) as u8,
            255 as real * covering(share(a), share(below)),
        ),
{
    lemma_covering_byte(a, below);
}

proof fn lemma_put_together(sem: Meaning, texel: Rgba, brightness: Single, under: u32)
    requires
        ({
            let below = unpacked(under);
            let light = worth(brightness);
            let (s, d) = (share(texel.a), share(below.a));
            &&& (Single { bits: ZERO }).lt(covered(sem, texel.a, below.a))
            &&& is_cut(
                channel(sem, texel.r, brightness, texel.a, below.r, below.a),
                layer(texel.r as real * light, s, below.r as real, d),
            )
            &&& is_cut(
                channel(sem, texel.g, brightness, texel.a, below.g, below.a),
                layer(texel.g as real * light, s, below.g as real, d),
            )
            &&& is_cut(
                channel(sem, texel.b, brightness, texel.a, below.b, below.a),
                layer(texel.b as real * light, s, below.b as real, d),
            )
            &&& covered_byte(sem, texel.a, below.a) <= 255
            &&& is_cut(covered_byte(sem, texel.a, below.a) as u8, 255 as real * covering(s, d))
        }),
    ensures
        lies_over(
            composed(sem, texel, brightness, under),
            texel,
            worth(brightness),
            unpacked(under),
        ),
{
    lemma_composed(sem, texel, brightness, under);
}

/// A texel that shows is drawn over what the canvas holds.
pub proof fn law_texels_lie_over_the_canvas(texel: Rgba, brightness: Single, under: u32)
    requires
        texel.a >= 3,
        is_finite(brightness),
        0 as real <= worth(brightness) <= 1 as real,
    ensures
        lies_over(composed(ieee(), texel, brightness, under), texel, worth(brightness), unpacked(under)),
{
    let below = unpacked(under);
    lemma_layer_byte(texel.r, brightness, texel.a, below.r, below.a);
    lemma_layer_byte(texel.g, brightness, texel.a, below.g, below.a);
    lemma_layer_byte(texel.b, brightness, texel.a, below.b, below.a);
    lemma_alpha_byte(texel.a, below.a);
    lemma_put_together(ieee(), texel, brightness, under);
}

/// An opaque texel as bright as its texture hides what lies below it and shows as it is.
pub proof fn law_opaque_texels_show_as_they_are(texel: Rgba, under: u32)
    requires
        texel.a == 255,
    ensures
        composed(ieee(), texel, Single { bits: ONE }, under) == texel,
{
    let sem = ieee();
    let below = unpacked(under);
    law_ieee_is_exact_for_opaque();
    lemma_whole_constants();
    lemma_constants();
    let (zero, one) = (Single { bits: ZERO }, Single { bits: ONE });
    lemma_whole_sum(1, 0);
    assert(covered(sem, 255, below.a) == one);
    lemma_order(zero, one);
    lemma_whole_channel(sem, texel.r, below.r, below.a);
    lemma_whole_channel(sem, texel.g, below.g, below.a);
    lemma_whole_channel(sem, texel.b, below.b, below.a);
    lemma_product_of_whole(1, 255);
    lemma_cut_whole(255, u32::MAX as nat);
    lemma_composed(sem, texel, one, under);
}

proof fn lemma_cut_whole(c: u8, max: nat)
    requires
        c <= max,
    ensures
        whole(ieee(), c as u64).truncated(max) == c,
{
    lemma_whole_is_exact(c as u64);
    lemma_truncated(whole(ieee(), c as u64), max);
}

proof fn lemma_whole_channel(sem: Meaning, c: u8, dst: u8, dst_a: u8)
    requires
        sem == ieee(),
        opaque_is_exact(sem),
        covered(sem, 255, dst_a) == (Single { bits: ONE }),
    ensures
        channel(sem, c, Single { bits: ONE }, 255, dst, dst_a) == c,
{
    lemma_whole_constants();
    let (zero, one) = (Single { bits: ZERO }, Single { bits: ONE });
    let w = whole(sem, c as u64);
    lemma_product_of_whole(c as u64, 1);
    assert(times(sem, w, one) == w);
    assert(times(sem, times(sem, whole(sem, dst as u64), opacity(sem, dst_a)), zero) == zero);
    lemma_whole_sum(c as u64, 0);
    assert(plus(sem, w, zero) == w);
    lemma_quotient_of_whole(c as u64, 1);
    assert(over(sem, w, one) == w);
    lemma_cut_whole(c, 255);
}

/// A texel shows just where its alpha is at least 3, which is more than a hundredth.
pub proof fn law_faint_texels_do_not_show(texel: Rgba)
    ensures
        is_visible(ieee(), texel) <==> texel.a >= 3,
{
    law_constants_have_their_names();
    lemma_opacity(texel.a, 1 as real);
    lemma_order(Single { bits: HUNDREDTH }, opacity(ieee(), texel.a));
}

/// The top of a box is as bright as its texture, the bottom half as bright, north and south four
/// fifths, west and east three fifths; without shade all are as bright as the texture.
pub proof fn law_how_bright_sides_are(side: Side)
    ensures
        worth(brightness_of(side, false)) == 1 as real,
        worth(brightness_of(Side::Up, true)) == 1 as real,
        worth(brightness_of(Side::Down, true)) == 1 as real / 2 as real,
        stands_for(brightness_of(Side::North, true).bits, 4 as real / 5 as real),
        stands_for(brightness_of(Side::South, true).bits, 4 as real / 5 as real),
        stands_for(brightness_of(Side::West, true).bits, 3 as real / 5 as real),
        stands_for(brightness_of(Side::East, true).bits, 3 as real / 5 as real),
{
    lemma_constants();
    law_constants_have_their_names();
}

}
