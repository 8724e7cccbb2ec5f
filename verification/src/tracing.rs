//! Where boxes land on the canvas, and which pixels and texels they take.
use crate::arith::{over, plus, times, whole};
use crate::framing::is_close;
use crate::ieee::ieee;
use crate::raster::{highest, lowest, texel_index, Triangle};
use crate::reals::{
    is_finite, lemma_constants, lemma_difference_within, lemma_order, lemma_product_within,
    lemma_quotient_within, lemma_sum_within, lemma_truncated, lemma_whole_is_exact, size, worth,
};
use crate::render::{centered, corner_point, on_canvas, vertex_at, Corner, Projected, TexturePoint};
use crate::single::{lemma_turned_sign, Single, HALF, SIXTEEN, ZERO};
use vstd::prelude::*;

verus! {

/// Coordinates of boxes are given in sixteenths of a block, from a corner of the block; they are
/// drawn in blocks, from its middle.
pub proof fn law_coordinates_are_sixteenths(coordinate: Single, m: real)
    requires
        is_finite(coordinate),
        size(worth(coordinate)) <= m,
        1 as real <= m <= 0x1000_0000_0000_0000 as real,
    ensures
        is_finite(centered(ieee(), coordinate)),
        is_close(
            worth(centered(ieee(), coordinate)),
            worth(coordinate) / 16 as real - 1 as real / 2 as real,
            m,
        ),
{
    lemma_constants();
    let (sixteen, half) = (Single { bits: SIXTEEN }, Single { bits: HALF });
    let (x, y) = (worth(coordinate), worth(sixteen));
    assert(x / y == x / 16 as real) by (nonlinear_arith)
        requires
            y == 16 as real,
    ;
    lemma_quotient_within(coordinate, sixteen, m);
    lemma_difference_within(over(ieee(), coordinate, sixteen), half, 2 as real * m);
}

/// A corner of a box has in each direction the coordinate of the end at which it lies.
pub proof fn law_corners_lie_at_the_ends(from: [Single; 3], to: [Single; 3], c: Corner)
    ensures
        ({
            let p = corner_point(ieee(), from, to, c);
            &&& c.x ==> p.x == centered(ieee(), to[0])
            &&& !c.x ==> p.x == centered(ieee(), from[0])
            &&& c.y ==> p.y == centered(ieee(), to[1])
            &&& !c.y ==> p.y == centered(ieee(), from[1])
            &&& c.z ==> p.z == centered(ieee(), to[2])
            &&& !c.z ==> p.z == centered(ieee(), from[2])
        }),
{
}

/// The range from -1 to 1 is spread over the whole canvas.
proof fn lemma_on_canvas(ratio: Single, x: real, n: u64, m: real)
    requires
        is_finite(ratio),
        size(worth(ratio) - x) <= 2 as real * m / 0x100_0000 as real,
        size(x) <= m,
        1 as real <= m <= 0x1_0000_0000 as real,
        1 <= n < 0x100_0000,
    ensures
        is_finite(on_canvas(ieee(), ratio, n as nat)),
        is_close(
            worth(on_canvas(ieee(), ratio, n as nat)),
            ((x + 1 as real) / 2 as real) * (n as real),
            m * (n as real),
        ),
{
    lemma_constants();
    lemma_whole_is_exact(n);
    let half = Single { bits: HALF };
    let (r, h) = (worth(ratio), worth(half));
    assert(r * h == r / 2 as real) by (nonlinear_arith)
        requires
            h == 1 as real / 2 as real,
    ;
    lemma_product_within(ratio, half, m);
    let scaled = times(ieee(), ratio, half);
    lemma_sum_within(scaled, half, 2 as real * m);
    let moved = plus(ieee(), scaled, half);
    let (u, y, t) = (worth(moved), (x + 1 as real) / 2 as real, n as real);
    let e = 5 as real * m / 0x100_0000 as real;
    assert(size(u - y) <= e);
    let k = m * t;
    let f = u - y;
    assert(-(e * t) <= f * t && f * t <= e * t) by (nonlinear_arith)
        requires
            -e <= f,
            f <= e,
            t >= 1 as real,
    ;
    assert(e * t == 5 as real * k / 0x100_0000 as real) by (nonlinear_arith)
        requires
            e == 5 as real * m / 0x100_0000 as real,
            k == m * t,
    ;
    assert((u - y) * t == u * t - y * t) by (nonlinear_arith);
    assert(-(2 as real * k) <= u * t && u * t <= 2 as real * k) by (nonlinear_arith)
        requires
            -(2 as real * m) <= u,
            u <= 2 as real * m,
            k == m * t,
            t >= 1 as real,
    ;
    assert(1 as real <= k <= 0x100_0000_0000_0000 as real) by (nonlinear_arith)
        requires
            k == m * t,
            1 as real <= t <= 0x100_0000 as real,
            1 as real <= m <= 0x1_0000_0000 as real,
    ;
    lemma_product_within(moved, whole(ieee(), n), 2 as real * k);
}

/// A projected point lands where its coordinates say, divided by its fourth: from left to right
/// for -1 to 1, and from top to bottom for 1 to -1, over the whole canvas; its depth is what lies
/// in the direction of the view.
pub proof fn law_points_land_on_the_canvas(
    p: Projected,
    uv: TexturePoint,
    brightness: Single,
    n: u64,
    m: real,
)
    requires
        is_finite(p.x) && is_finite(p.y) && is_finite(p.z) && is_finite(p.w),
        worth(p.w) != 0 as real,
        size(worth(p.x) / worth(p.w)) <= m,
        size(worth(p.y) / worth(p.w)) <= m,
        size(worth(p.z) / worth(p.w)) <= m,
        1 as real <= m <= 0x1_0000_0000 as real,
        1 <= n < 0x100_0000,
    ensures
        ({
            let v = vertex_at(ieee(), p, uv, brightness, n as nat);
            let t = n as real;
            &&& is_finite(v.x) && is_finite(v.y) && is_finite(v.z)
            &&& is_close(
                worth(v.x),
                ((worth(p.x) / worth(p.w) + 1 as real) / 2 as real) * t,
                m * t,
            )
            &&& is_close(
                worth(v.y),
                ((1 as real - worth(p.y) / worth(p.w)) / 2 as real) * t,
                m * t,
            )
            &&& is_close(worth(v.z), worth(p.z) / worth(p.w), m)
            &&& v.u == uv.0 && v.v == uv.1 && v.brightness == brightness
        }),
{
    lemma_quotient_within(p.x, p.w, m);
    lemma_on_canvas(over(ieee(), p.x, p.w), worth(p.x) / worth(p.w), n, m);
    lemma_turned_sign(p.y);
    let turned = p.y.neg_spec();
    let (y, w) = (worth(p.y), worth(p.w));
    lemma_turned_worth(p.y);
    assert((-y) / w == -(y / w)) by (nonlinear_arith)
        requires
            w != 0 as real,
    ;
    lemma_quotient_within(turned, p.w, m);
    lemma_on_canvas(over(ieee(), turned, p.w), (-y) / w, n, m);
    lemma_quotient_within(p.z, p.w, m);
}

proof fn lemma_turned_worth(a: Single)
    requires
        is_finite(a),
    ensures
        is_finite(a.neg_spec()),
        worth(a.neg_spec()) == -worth(a),
{
    lemma_turned_sign(a);
    vstd::arithmetic::power2::lemma_pow2_pos(149);
    let (v, q) = (a.value() as real, crate::single::units_in_one() as real);
    assert((-v) / q == -(v / q)) by (nonlinear_arith)
        requires
            q > 0 as real,
    ;
}

/// A row or column of texels is spread evenly from 0 to 1; before it lies the first texel, behind
/// it the last.
pub proof fn law_texels_are_spread_evenly(part: Single, n: u64)
    requires
        is_finite(part),
        size(worth(part)) <= 0x100_0000 as real,
        1 <= n < 0x10_0000,
    ensures
        ({
            let i = texel_index(ieee(), part, n as nat);
            let t = worth(part) * (n as real);
            let slack = (size(worth(part)) + 1 as real) * (n as real) / 1_000_000 as real;
            &&& 0 <= i < n
            &&& worth(part) <= 0 as real ==> i == 0
            &&& i > 0 ==> i as real <= t + slack
            &&& i < n - 1 ==> t < i as real + 1 as real + slack
        }),
{
    lemma_whole_is_exact(n);
    let w = whole(ieee(), n);
    let (p, t) = (worth(part), n as real);
    let z = size(p) + 1 as real;
    let m = z * t;
    assert(-m <= p * t && p * t <= m && m >= 1 as real && m <= 0x1_0000_0000_0000 as real)
        by (nonlinear_arith)
        requires
            m == z * t,
            -z <= p,
            p <= z,
            1 as real <= z <= 0x200_0000 as real,
            1 as real <= t <= 0x10_0000 as real,
    ;
    lemma_product_within(part, w, m);
    lemma_truncated(times(ieee(), part, w), u32::MAX as nat);
    if p <= 0 as real {
        crate::reals::lemma_product_error(part, w);
        assert(p * t <= 0 as real) by (nonlinear_arith)
            requires
                p <= 0 as real,
                t >= 1 as real,
        ;
        lemma_not_above_nothing(part, w);
    }
}

/// A product of a number that is not positive with one that is not negative is not positive.
proof fn lemma_not_above_nothing(a: Single, b: Single)
    requires
        is_finite(a),
        is_finite(b),
        worth(a) <= 0 as real,
        worth(b) >= 0 as real,
        is_finite(times(ieee(), a, b)),
        size(worth(times(ieee(), a, b)) - worth(a) * worth(b)) <= crate::reals::part() * size(
            worth(a) * worth(b),
        ) + crate::reals::speck(),
        worth(a) * worth(b) <= 0 as real,
    ensures
        times(ieee(), a, b).truncated(u32::MAX as nat) == 0,
{
    let x = worth(a) * worth(b);
    crate::reals::lemma_share(size(x), size(x));
    crate::reals::lemma_speck();
    lemma_truncated(times(ieee(), a, b), u32::MAX as nat);
}

/// The first of the pixels that three coordinates reach lies at the least of them, the last at the
/// greatest, as far as the canvas goes.
pub proof fn law_coordinates_reach_their_pixels(a: Single, b: Single, c: Single, n: nat, x: int)
    requires
        is_finite(a) && is_finite(b) && is_finite(c),
        0 <= x < n,
    ensures
        lowest(a, b, c, n) <= x <==> x == n - 1 || worth(a) < x as real + 1 as real || worth(b)
            < x as real + 1 as real || worth(c) < x as real + 1 as real,
        x <= highest(a, b, c, n) <==> x == 0 || worth(a) >= x as real || worth(b) >= x as real
            || worth(c) >= x as real,
{
    lemma_constants();
    let zero = Single { bits: ZERO };
    lemma_order(a, b);
    lemma_order(b, a);
    let (low, high) = (a.min_spec(b), a.max_spec(b));
    lemma_order(low, c);
    lemma_order(c, low);
    lemma_order(high, c);
    lemma_order(c, high);
    let (least, most) = (low.min_spec(c), high.max_spec(c));
    lemma_order(least, zero);
    lemma_order(most, zero);
    let (first, last) = (least.max_spec(zero), most.max_spec(zero));
    lemma_truncated_at(first, (n - 1) as nat, x);
    lemma_truncated_at(last, (n - 1) as nat, x);
}

/// Where the whole part of a number lies.
proof fn lemma_truncated_at(a: Single, max: nat, x: int)
    requires
        is_finite(a),
        worth(a) >= 0 as real,
        0 <= x <= max,
    ensures
        a.truncated(max) <= x <==> x == max || worth(a) < x as real + 1 as real,
        x <= a.truncated(max) <==> x == 0 || worth(a) >= x as real,
{
    lemma_truncated(a, max);
}

/// The box round a triangle goes from the least to the greatest of its corners, to the right on
/// the canvas as wide as it is and down as high as it is.
pub proof fn law_triangles_reach_their_pixels(t: Triangle, w: nat, h: nat, x: int, y: int)
    requires
        is_finite(t.v0.x) && is_finite(t.v1.x) && is_finite(t.v2.x),
        is_finite(t.v0.y) && is_finite(t.v1.y) && is_finite(t.v2.y),
        0 <= x < w,
        0 <= y < h,
        worth(t.v0.x) < x as real + 1 as real || worth(t.v1.x) < x as real + 1 as real || worth(
            t.v2.x,
        ) < x as real + 1 as real,
        worth(t.v0.x) >= x as real || worth(t.v1.x) >= x as real || worth(t.v2.x) >= x as real,
        worth(t.v0.y) < y as real + 1 as real || worth(t.v1.y) < y as real + 1 as real || worth(
            t.v2.y,
        ) < y as real + 1 as real,
        worth(t.v0.y) >= y as real || worth(t.v1.y) >= y as real || worth(t.v2.y) >= y as real,
    ensures
        t.reaches(w, h, x, y),
{
    law_coordinates_reach_their_pixels(t.v0.x, t.v1.x, t.v2.x, w, x);
    law_coordinates_reach_their_pixels(t.v0.y, t.v1.y, t.v2.y, h, y);
}

}
