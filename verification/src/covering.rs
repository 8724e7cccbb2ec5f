//! Which pixels a triangle covers, and what it shows there.
use crate::arith::{minus, over, plus, times, whole, Meaning};
use crate::ieee::{ieee, lemma_nearest_exact, lemma_signed, nearest_sum};
use crate::mixing::law_opaque_texels_show_as_they_are;
use crate::model::ElementView;
use crate::pixels::{ImageView, Rgba};
use crate::raster::{
    depth_at, drawn, edge, is_visible, oriented, packed, plotted, texel_at, texel_index, unpacked,
    weighed, weights, Canvas, Triangle, Vertex,
};
use crate::reals::{
    is_finite, law_constants_have_their_names, lemma_constants, lemma_difference_within,
    lemma_order, lemma_product_within, lemma_quotient_within, lemma_representable,
    lemma_sum_within, lemma_whole_product, size, worth,
};
use crate::render::{
    blank_canvas, elements_drawn, face_drawn, faces_drawn, scene_canvas, Projection, Scene,
};
use crate::single::{
    lemma_turned_sign, units, units_in_one, Single, GREATEST, HALF, HUNDRED_THOUSANDTH, INFINITY, ONE, ZERO,
};
use crate::smoothing::lemma_whole_value;
use vstd::arithmetic::power2::{lemma_pow2_adds, lemma_pow2_pos, pow2};
use vstd::prelude::*;

verus! {

/// Twice the signed area of the triangle with the given corners.
pub open spec fn area_of(a: (real, real), b: (real, real), c: (real, real)) -> real {
    (c.0 - a.0) * (b.1 - a.1) - (c.1 - a.1) * (b.0 - a.0)
}

/// The real coordinates of a point of the canvas.
pub open spec fn place(p: (Single, Single)) -> (real, real) {
    (worth(p.0), worth(p.1))
}

/// Whether two points lie no farther apart than `m` in each direction.
pub open spec fn are_near(a: (Single, Single), b: (Single, Single), m: real) -> bool {
    &&& is_finite(a.0) && is_finite(a.1) && is_finite(b.0) && is_finite(b.1)
    &&& size(worth(a.0) - worth(b.0)) <= m
    &&& size(worth(a.1) - worth(b.1)) <= m
}

/// A product of two differences.
proof fn lemma_product_of_differences(
    a: Single,
    b: Single,
    c: Single,
    d: Single,
    m: real,
)
    requires
        is_finite(a) && is_finite(b) && is_finite(c) && is_finite(d),
        size(worth(a) - worth(b)) <= m,
        size(worth(c) - worth(d)) <= m,
        1 as real <= m <= 0x100_0000 as real,
    ensures
        ({
            let t = times(ieee(), minus(ieee(), a, b), minus(ieee(), c, d));
            let k = m * m;
            &&& is_finite(t)
            &&& size(worth(t) - (worth(a) - worth(b)) * (worth(c) - worth(d))) <= 6 as real * k
                / 0x100_0000 as real
            &&& size((worth(a) - worth(b)) * (worth(c) - worth(d))) <= k
            &&& 1 as real <= k <= 0x1_0000_0000_0000 as real
        }),
{
    let (p, q) = (minus(ieee(), a, b), minus(ieee(), c, d));
    lemma_difference_within(a, b, m);
    lemma_difference_within(c, d, m);
    let (x, y) = (worth(a) - worth(b), worth(c) - worth(d));
    let (u, v) = (worth(p), worth(q));
    let e = m / 0x100_0000 as real;
    let k = m * m;
    assert(1 as real <= k && k <= 0x1_0000_0000_0000 as real && m * e == k / 0x100_0000 as real)
        by (nonlinear_arith)
        requires
            k == m * m,
            e == m / 0x100_0000 as real,
            1 as real <= m <= 0x100_0000 as real,
    ;
    assert(-k <= x * y && x * y <= k) by (nonlinear_arith)
        requires
            k == m * m,
            -m <= x,
            x <= m,
            -m <= y,
            y <= m,
    ;
    let f = u - x;
    let g = v - y;
    let n = 2 as real * m;
    assert(-(n * e) <= f * v && f * v <= n * e) by (nonlinear_arith)
        requires
            -e <= f,
            f <= e,
            -n <= v,
            v <= n,
    ;
    assert(-(m * e) <= x * g && x * g <= m * e) by (nonlinear_arith)
        requires
            -e <= g,
            g <= e,
            -m <= x,
            x <= m,
    ;
    assert(n * e == 2 as real * (m * e)) by (nonlinear_arith)
        requires
            n == 2 as real * m,
    ;
    assert(u * v - x * y == (u - x) * v + x * (v - y)) by (nonlinear_arith);
    let bound = 101 as real * k / 100 as real;
    assert(size(u * v) <= bound);
    lemma_product_within(p, q, bound);
}

/// An area comes out right, but for rounding.
pub proof fn lemma_edge(a: (Single, Single), b: (Single, Single), c: (Single, Single), m: real)
    requires
        are_near(b, a, m),
        are_near(c, a, m),
        1 as real <= m <= 0x100_0000 as real,
    ensures
        is_finite(edge(ieee(), a, b, c)),
        size(worth(edge(ieee(), a, b, c)) - area_of(place(a), place(b), place(c))) <= 15 as real
            * (m * m) / 0x100_0000 as real,
        size(area_of(place(a), place(b), place(c))) <= 2 as real * (m * m),
        1 as real <= m * m <= 0x1_0000_0000_0000 as real,
{
    lemma_product_of_differences(c.0, a.0, b.1, a.1, m);
    lemma_product_of_differences(c.1, a.1, b.0, a.0, m);
    let p = times(ieee(), minus(ieee(), c.0, a.0), minus(ieee(), b.1, a.1));
    let q = times(ieee(), minus(ieee(), c.1, a.1), minus(ieee(), b.0, a.0));
    let k = m * m;
    lemma_difference_within(p, q, 3 as real * k);
}

/// The middle of a pixel lies halfway between two whole numbers.
pub proof fn lemma_middle_of_pixel(x: u64)
    requires
        x < 0x80_0000,
    ensures
        ({
            let p = plus(ieee(), whole(ieee(), x), Single { bits: HALF });
            is_finite(p) && worth(p) == x as real + 1 as real / 2 as real
        }),
{
    lemma_whole_value(x);
    lemma_constants();
    let half = Single { bits: HALF };
    let (a, n) = (whole(ieee(), x), units_in_one());
    lemma_pow2_pos(148);
    lemma_pow2_pos(149);
    lemma_pow2_adds(1, 148);
    vstd::arithmetic::power2::lemma2_to64();
    let k = (2 * x + 1) as nat;
    lemma_representable(k, 148);
    let m = choose|m: nat| m < INFINITY && #[trigger] units(m) == k * pow2(148);
    let h = pow2(148);
    assert(n == 2 * h);
    let (v, q) = (half.value() as real, n as real);
    assert(v * 2 as real == q) by (nonlinear_arith)
        requires
            v / q == 1 as real / 2 as real,
            q > 0 as real,
    ;
    assert(half.value() == h);
    assert(x * n + h == k * h) by (nonlinear_arith)
        requires
            n == 2 * h,
            k == 2 * x + 1,
    ;
    assert(k * h > 0) by (nonlinear_arith)
        requires
            k >= 1,
            h > 0,
    ;
    let p = plus(ieee(), a, half);
    assert(p == nearest_sum(a, half));
    lemma_nearest_exact(k * h, 1, m);
    lemma_signed(false, m);
    assert(p.value() == k * h);
    lemma_whole_product(k as int, h as int);
    let (r, s) = (k as real, h as real);
    assert((r * s) / q == r / 2 as real) by (nonlinear_arith)
        requires
            q == 2 as real * s,
            s > 0 as real,
    ;
}

/// The middle of the pixel at `x`, `y`.
pub open spec fn middle(x: u64, y: u64) -> (real, real) {
    (x as real + 1 as real / 2 as real, y as real + 1 as real / 2 as real)
}

/// Whether the corners of a triangle are real, and no two of them, and none of them and the middle
/// of a pixel, lie farther apart than `m`.
pub open spec fn is_small(t: Triangle, x: u64, y: u64, m: real) -> bool {
    let p = middle(x, y);
    &&& are_near(t.v0.at(), t.v1.at(), m)
    &&& are_near(t.v1.at(), t.v2.at(), m)
    &&& are_near(t.v2.at(), t.v0.at(), m)
    &&& size(p.0 - worth(t.v0.x)) <= m && size(p.1 - worth(t.v0.y)) <= m
    &&& size(p.0 - worth(t.v1.x)) <= m && size(p.1 - worth(t.v1.y)) <= m
    &&& size(p.0 - worth(t.v2.x)) <= m && size(p.1 - worth(t.v2.y)) <= m
}

/// The signed areas between the middle of a pixel and two corners of a triangle: the one opposite
/// to each corner.
pub open spec fn areas(t: Triangle, x: u64, y: u64) -> (real, real, real) {
    let p = middle(x, y);
    (
        area_of(place(t.v1.at()), place(t.v2.at()), p),
        area_of(place(t.v2.at()), place(t.v0.at()), p),
        area_of(place(t.v0.at()), place(t.v1.at()), p),
    )
}

/// By how much the areas may be wrong that decide what is covered.
pub open spec fn slack(m: real) -> real {
    24 as real * (m * m) / 0x100_0000 as real
}

proof fn lemma_areas(t: Triangle, x: u64, y: u64, m: real)
    requires
        is_small(t, x, y, m),
        1 as real <= m <= 0x100_0000 as real,
        x < 0x80_0000,
        y < 0x80_0000,
    ensures
        ({
            let half = Single { bits: HALF };
            let p = (plus(ieee(), whole(ieee(), x), half), plus(ieee(), whole(ieee(), y), half));
            let e0 = edge(ieee(), t.v1.at(), t.v2.at(), p);
            let e1 = edge(ieee(), t.v2.at(), t.v0.at(), p);
            let e2 = edge(ieee(), t.v0.at(), t.v1.at(), p);
            let (a0, a1, a2) = areas(t, x, y);
            let d = 15 as real * (m * m) / 0x100_0000 as real;
            &&& is_finite(e0) && is_finite(e1) && is_finite(e2)
            &&& size(worth(e0) - a0) <= d
            &&& size(worth(e1) - a1) <= d
            &&& size(worth(e2) - a2) <= d
            &&& size(a0) <= 2 as real * (m * m)
            &&& size(a1) <= 2 as real * (m * m)
            &&& size(a2) <= 2 as real * (m * m)
            &&& 1 as real <= m * m <= 0x1_0000_0000_0000 as real
        }),
{
    lemma_middle_of_pixel(x);
    lemma_middle_of_pixel(y);
    let half = Single { bits: HALF };
    let p = (plus(ieee(), whole(ieee(), x), half), plus(ieee(), whole(ieee(), y), half));
    lemma_edge(t.v1.at(), t.v2.at(), p, m);
    lemma_edge(t.v2.at(), t.v0.at(), p, m);
    lemma_edge(t.v0.at(), t.v1.at(), p, m);
}

/// A triangle covers the pixels whose middle lies within it, and no others, but for rounding.
pub proof fn law_triangles_cover_what_lies_within(t: Triangle, x: u64, y: u64, m: real)
    requires
        is_small(t, x, y, m),
        1 as real <= m <= 0x100_0000 as real,
        x < 0x80_0000,
        y < 0x80_0000,
    ensures
        ({
            let (a0, a1, a2) = areas(t, x, y);
            let d = slack(m);
            &&& a0 >= d && a1 >= d && a2 >= d ==> weights(ieee(), t, x, y) is Some
            &&& a0 < -d || a1 < -d || a2 < -d ==> weights(ieee(), t, x, y) is None
        }),
{
    lemma_constants();
    lemma_areas(t, x, y, m);
    let half = Single { bits: HALF };
    let p = (plus(ieee(), whole(ieee(), x), half), plus(ieee(), whole(ieee(), y), half));
    let zero = Single { bits: ZERO };
    lemma_order(edge(ieee(), t.v1.at(), t.v2.at(), p), zero);
    lemma_order(edge(ieee(), t.v2.at(), t.v0.at(), p), zero);
    lemma_order(edge(ieee(), t.v0.at(), t.v1.at(), p), zero);
}

/// A quotient times its divisor.
proof fn lemma_weight(e: Single, area: Single, a: real, k: real)
    requires
        is_finite(e),
        is_finite(area),
        worth(area) > 0 as real,
        worth(area) <= 3 as real * k,
        1 as real <= k <= 0x1_0000_0000_0000 as real,
        size(worth(e) - a) <= 15 as real * k / 0x100_0000 as real,
        size(a) <= 2 as real * k,
        size(worth(e) / worth(area)) <= 0x1_0000_0000 as real * 2000 as real,
    ensures
        is_finite(over(ieee(), e, area)),
        size(worth(over(ieee(), e, area)) * worth(area) - a) <= 24 as real * k / 0x100_0000 as real,
{
    let (x, y) = (worth(e), worth(area));
    let q = x / y;
    assert(q * y == x) by (nonlinear_arith)
        requires
            q == x / y,
            y > 0 as real,
    ;
    lemma_quotient_within(e, area, size(q));
    let r = worth(over(ieee(), e, area));
    let (f, g) = (r - q, (size(q) + 1 as real) / 0x100_0000 as real);
    assert(-(g * y) <= f * y && f * y <= g * y) by (nonlinear_arith)
        requires
            -g <= f,
            f <= g,
            y > 0 as real,
    ;
    let z = size(q);
    assert(z * y == size(x)) by (nonlinear_arith)
        requires
            z == size(q),
            q * y == x,
            y > 0 as real,
    ;
    assert(g * y == (z * y + y) / 0x100_0000 as real) by (nonlinear_arith)
        requires
            g == (z + 1 as real) / 0x100_0000 as real,
    ;
    assert((r - q) * y == r * y - q * y) by (nonlinear_arith);
}

/// Each corner of a triangle counts at a pixel as much as the area opposite to it is of the whole,
/// but for rounding.
pub proof fn law_corners_count_as_they_are_near(t: Triangle, x: u64, y: u64, m: real)
    requires
        is_small(t, x, y, m),
        1 as real <= m <= 0x1000 as real,
        x < 0x80_0000,
        y < 0x80_0000,
        is_finite(t.area),
        1 as real / 100_001 as real <= worth(t.area) <= 3 as real * (m * m),
        weights(ieee(), t, x, y) is Some,
    ensures
        ({
            let w = weights(ieee(), t, x, y)->0;
            let (a0, a1, a2) = areas(t, x, y);
            &&& is_finite(w.0) && is_finite(w.1) && is_finite(w.2)
            &&& size(worth(w.0) * worth(t.area) - a0) <= slack(m)
            &&& size(worth(w.1) * worth(t.area) - a1) <= slack(m)
            &&& size(worth(w.2) * worth(t.area) - a2) <= slack(m)
        }),
{
    lemma_areas(t, x, y, m);
    let half = Single { bits: HALF };
    let p = (plus(ieee(), whole(ieee(), x), half), plus(ieee(), whole(ieee(), y), half));
    let e0 = edge(ieee(), t.v1.at(), t.v2.at(), p);
    let e1 = edge(ieee(), t.v2.at(), t.v0.at(), p);
    let e2 = edge(ieee(), t.v0.at(), t.v1.at(), p);
    let (a0, a1, a2) = areas(t, x, y);
    let k = m * m;
    assert(k <= 0x100_0000 as real) by (nonlinear_arith)
        requires
            k == m * m,
            1 as real <= m <= 0x1000 as real,
    ;
    let area = worth(t.area);
    lemma_ratio(worth(e0), area);
    lemma_ratio(worth(e1), area);
    lemma_ratio(worth(e2), area);
    lemma_weight(e0, t.area, a0, k);
    lemma_weight(e1, t.area, a1, k);
    lemma_weight(e2, t.area, a2, k);
}

proof fn lemma_ratio(x: real, y: real)
    requires
        size(x) <= 0x300_0000 as real,
        1 as real / 100_001 as real <= y,
    ensures
        size(x / y) <= 0x1_0000_0000 as real * 2000 as real,
{
    let q = x / y;
    assert(q * y == x) by (nonlinear_arith)
        requires
            q == x / y,
            y > 0 as real,
    ;
    let b = 0x1_0000_0000 as real * 2000 as real;
    assert(-b <= q && q <= b) by (nonlinear_arith)
        requires
            q * y == x,
            y >= 1 as real / 100_001 as real,
            -(0x300_0000 as real) <= x,
            x <= 0x300_0000 as real,
            b == 0x1_0000_0000 as real * 2000 as real,
    ;
}

proof fn lemma_magnitude(a: Single)
    requires
        is_finite(a),
    ensures
        is_finite(a.abs_spec()),
        worth(a.abs_spec()) == size(worth(a)),
        is_finite(a.neg_spec()),
        worth(a.neg_spec()) == -worth(a),
{
    lemma_turned_sign(a);
    crate::reals::lemma_sign(a);
    lemma_pow2_pos(149);
    let (v, q) = (a.value() as real, units_in_one() as real);
    assert((-v) / q == -(v / q)) by (nonlinear_arith)
        requires
            q > 0 as real,
    ;
    crate::reals::lemma_sign(a.abs_spec());
}

/// The corners of a triangle are put so that its area is positive, by changing the last two where
/// it is not; a triangle with next to no area is left out.
pub proof fn law_triangles_are_turned(v0: Vertex, v1: Vertex, v2: Vertex, m: real)
    requires
        are_near(v1.at(), v0.at(), m),
        are_near(v2.at(), v0.at(), m),
        1 as real <= m <= 0x100_0000 as real,
    ensures
        ({
            let whole_area = area_of(place(v0.at()), place(v1.at()), place(v2.at()));
            let d = slack(m);
            let least = 1 as real / 100_000 as real;
            &&& whole_area > d + 2 as real * least ==> {
                &&& oriented(ieee(), v0, v1, v2) matches Some(t)
                &&& t.v0 == v0 && t.v1 == v1 && t.v2 == v2
                &&& is_finite(t.area) && size(worth(t.area) - whole_area) <= d
            }
            &&& whole_area < -(d + 2 as real * least) ==> {
                &&& oriented(ieee(), v0, v1, v2) matches Some(t)
                &&& t.v0 == v0 && t.v1 == v2 && t.v2 == v1
                &&& is_finite(t.area) && size(worth(t.area) + whole_area) <= d
            }
            &&& size(whole_area) + d < least / 2 as real ==> oriented(ieee(), v0, v1, v2) is None
        }),
{
    law_constants_have_their_names();
    lemma_constants();
    lemma_edge(v0.at(), v1.at(), v2.at(), m);
    let area = edge(ieee(), v0.at(), v1.at(), v2.at());
    lemma_magnitude(area);
    lemma_order(area.abs_spec(), Single { bits: HUNDRED_THOUSANDTH });
    lemma_order(area, Single { bits: ZERO });
}

/// Three values are added up, each as often as it counts.
pub proof fn law_values_are_weighed(
    v: (Single, Single, Single),
    w: (Single, Single, Single),
    n: real,
)
    requires
        is_finite(v.0) && is_finite(v.1) && is_finite(v.2),
        is_finite(w.0) && is_finite(w.1) && is_finite(w.2),
        size(worth(v.0) * worth(w.0)) <= n,
        size(worth(v.1) * worth(w.1)) <= n,
        size(worth(v.2) * worth(w.2)) <= n,
        1 as real <= n <= 0x1_0000_0000 as real,
    ensures
        is_finite(weighed(ieee(), v, w)),
        size(
            worth(weighed(ieee(), v, w)) - (worth(v.0) * worth(w.0) + worth(v.1) * worth(w.1)
                + worth(v.2) * worth(w.2)),
        ) <= 12 as real * n / 0x100_0000 as real,
{
    lemma_product_within(v.0, w.0, n);
    lemma_product_within(v.1, w.1, n);
    lemma_product_within(v.2, w.2, n);
    let (a, b, c) = (
        times(ieee(), v.0, w.0),
        times(ieee(), v.1, w.1),
        times(ieee(), v.2, w.2),
    );
    let (x, y, z) = (worth(v.0) * worth(w.0), worth(v.1) * worth(w.1), worth(v.2) * worth(w.2));
    lemma_three_added(a, b, c, x, y, z, n);
}

proof fn lemma_three_added(a: Single, b: Single, c: Single, x: real, y: real, z: real, n: real)
    requires
        is_finite(a) && is_finite(b) && is_finite(c),
        size(x) <= n && size(y) <= n && size(z) <= n,
        size(worth(a) - x) <= 2 as real * n / 0x100_0000 as real,
        size(worth(b) - y) <= 2 as real * n / 0x100_0000 as real,
        size(worth(c) - z) <= 2 as real * n / 0x100_0000 as real,
        1 as real <= n <= 0x1_0000_0000 as real,
    ensures
        is_finite(plus(ieee(), plus(ieee(), a, b), c)),
        size(worth(plus(ieee(), plus(ieee(), a, b), c)) - (x + y + z)) <= 12 as real * n
            / 0x100_0000 as real,
{
    lemma_sum_within(a, b, 5 as real * n / 2 as real);
    lemma_sum_within(plus(ieee(), a, b), c, 7 as real * n / 2 as real);
}

/// What a triangle shows at a pixel: of its texture, which may be wider than high, the column for
/// the first coordinates of its corners and the row for the second ones.
pub proof fn law_corners_are_weighed_alike(
    t: Triangle,
    tex: ImageView,
    w: (Single, Single, Single),
)
    ensures
        texel_at(ieee(), t, tex, w) == tex.pixel(
            texel_index(ieee(), weighed(ieee(), (t.v0.u, t.v1.u, t.v2.u), w), tex.width),
            texel_index(ieee(), weighed(ieee(), (t.v0.v, t.v1.v, t.v2.v), w), tex.height),
        ),
        depth_at(ieee(), t, w) == weighed(ieee(), w, (t.v0.z, t.v1.z, t.v2.z)),
{
}

/// Where a triangle covers a pixel, is nearer than what the canvas holds there and has an opaque
/// texel as bright as its texture, the canvas holds that texel and the depth of the triangle.
pub proof fn law_nearer_opaque_texels_are_drawn(
    t: Triangle,
    tex: ImageView,
    x: u64,
    y: u64,
    color: u32,
    depth: Single,
)
    requires
        weights(ieee(), t, x, y) is Some,
        ({
            let w = weights(ieee(), t, x, y)->0;
            let texel = texel_at(ieee(), t, tex, w);
            &&& depth_at(ieee(), t, w).lt(depth)
            &&& texel.a == 255
            &&& is_visible(ieee(), texel)
        }),
        t.v0.brightness == (Single { bits: ONE }),
    ensures
        ({
            let w = weights(ieee(), t, x, y)->0;
            plotted(ieee(), t, tex, x, y, color, depth) == (
                packed(texel_at(ieee(), t, tex, w)),
                depth_at(ieee(), t, w),
            )
        }),
{
    let w = weights(ieee(), t, x, y)->0;
    law_opaque_texels_show_as_they_are(texel_at(ieee(), t, tex, w), color);
}

/// Where a triangle does not cover a pixel, is not nearer than what the canvas holds, or its texel
/// does not show, nothing changes; a texel that is not opaque leaves the depth as it is.
pub proof fn law_what_is_not_drawn(
    sem: Meaning,
    t: Triangle,
    tex: ImageView,
    x: u64,
    y: u64,
    color: u32,
    depth: Single,
)
    ensures
        ({
            let after = plotted(sem, t, tex, x, y, color, depth);
            match weights(sem, t, x, y) {
                None => after == (color, depth),
                Some(w) => {
                    let texel = texel_at(sem, t, tex, w);
                    &&& !depth_at(sem, t, w).lt(depth) || !is_visible(sem, texel) ==> after == (
                        color,
                        depth,
                    )
                    &&& texel.a < 255 ==> after.1 == depth
                },
            }
        }),
{
}

/// The pixels of a canvas lie row by row, and each is drawn by itself.
pub proof fn law_pixels_lie_row_by_row(
    sem: Meaning,
    before: Canvas,
    w: nat,
    h: nat,
    v: (Vertex, Vertex, Vertex),
    tex: ImageView,
    x: int,
    y: int,
)
    requires
        0 <= x < w,
        0 <= y < h,
        before.colors.len() == w * h,
        before.depths.len() == w * h,
    ensures
        ({
            let after = drawn(sem, before, w, h, v.0, v.1, v.2, tex);
            let i = y * w + x;
            &&& 0 <= i < w * h
            &&& after.colors.len() == w * h && after.depths.len() == w * h
            &&& match oriented(sem, v.0, v.1, v.2) {
                Some(t) if t.reaches(w, h, x, y) => (after.colors[i], after.depths[i]) == plotted(
                    sem,
                    t,
                    tex,
                    x as u64,
                    y as u64,
                    before.colors[i],
                    before.depths[i],
                ),
                _ => after.colors[i] == before.colors[i] && after.depths[i] == before.depths[i],
            }
        }),
{
    let i = y * w + x;
    assert(0 <= i < w * h) by (nonlinear_arith)
        requires
            i == y * w + x,
            0 <= x < w,
            0 <= y < h,
    ;
    vstd::arithmetic::div_mod::lemma_fundamental_div_mod_converse(i, w as int, y, x);
}

/// Boxes are drawn one after the other, and of a box its faces.
pub proof fn law_boxes_are_drawn_in_order(
    sem: Meaning,
    to: Projection,
    scene: Scene,
    elements: Seq<ElementView>,
    element: ElementView,
)
    ensures
        scene_canvas(sem, to, scene, Seq::<ElementView>::empty()) == blank_canvas(scene.size),
        scene_canvas(sem, to, scene, elements.push(element)) == faces_drawn(
            sem,
            to,
            scene,
            scene_canvas(sem, to, scene, elements),
            element,
            element.faces.len(),
        ),
{
    lemma_first_boxes(sem, to, scene, elements, elements.push(element), elements.len());
}

proof fn lemma_first_boxes(
    sem: Meaning,
    to: Projection,
    scene: Scene,
    a: Seq<ElementView>,
    b: Seq<ElementView>,
    n: nat,
)
    requires
        n <= a.len(),
        n <= b.len(),
        forall|i: int| 0 <= i < n ==> a[i] == #[trigger] b[i],
    ensures
        elements_drawn(sem, to, scene, blank_canvas(scene.size), a, n) == elements_drawn(
            sem,
            to,
            scene,
            blank_canvas(scene.size),
            b,
            n,
        ),
    decreases n,
{
    if n > 0 {
        lemma_first_boxes(sem, to, scene, a, b, (n - 1) as nat);
        assert(a[n - 1] == b[n - 1]);
    }
}

/// One more face of a box is drawn after those before it.
pub proof fn law_faces_are_drawn_in_order(
    sem: Meaning,
    to: Projection,
    scene: Scene,
    before: Canvas,
    element: ElementView,
    n: nat,
)
    requires
        n < element.faces.len(),
    ensures
        faces_drawn(sem, to, scene, before, element, 0) == before,
        faces_drawn(sem, to, scene, before, element, n + 1) == face_drawn(
            sem,
            to,
            scene,
            faces_drawn(sem, to, scene, before, element, n),
            element,
            element.faces[n as int].0,
            element.faces[n as int].1,
        ),
{
}

/// On a canvas on which nothing is drawn, everything is near, and nothing is seen.
pub proof fn law_everything_is_nearer_than_nothing(size: nat, i: int, z: Single)
    requires
        0 <= i < size * size,
        is_finite(z),
        worth(z) <= 0x1_0000_0000_0000_0000 as real,
    ensures
        blank_canvas(size).colors.len() == size * size,
        blank_canvas(size).depths.len() == size * size,
        z.lt(blank_canvas(size).depths[i]),
        unpacked(blank_canvas(size).colors[i]) == (Rgba { r: 0, g: 0, b: 0, a: 0 }),
{
    let greatest = Single { bits: GREATEST };
    lemma_order(z, greatest);
    crate::reals::lemma_greatest_worth();
}

/// A color holds its alpha, red, green and blue, one byte each, the alpha first.
pub proof fn law_colors_hold_their_channels(p: Rgba, color: u32)
    ensures
        packed(p) == 0x100_0000 * p.a + 0x1_0000 * p.r + 0x100 * p.g + p.b,
        0x100_0000 * unpacked(color).a + 0x1_0000 * unpacked(color).r + 0x100 * unpacked(color).g
            + unpacked(color).b == color,
{
    crate::raster::law_packing_loses_nothing(p, color);
}

/// A pixel of an image is four bytes, red, green, blue and alpha; pixels lie row by row.
pub proof fn law_pixels_are_four_bytes(image: ImageView, x: int, y: int)
    ensures
        ({
            let at = 4 * (image.width * y + x);
            image.pixel(x, y) == (Rgba {
                r: image.bytes[at],
                g: image.bytes[at + 1],
                b: image.bytes[at + 2],
                a: image.bytes[at + 3],
            })
        }),
{
    let w = image.width as int;
    assert(y * w == w * y) by (nonlinear_arith);
}

/// The lesser of two numbers is one of them and no greater than either, the greater one of them and
/// no less than either; without its sign a number is as great as it is far from zero.
pub proof fn law_lesser_and_greater(a: Single, b: Single)
    requires
        is_finite(a),
        is_finite(b),
    ensures
        a.min_spec(b) == a || a.min_spec(b) == b,
        worth(a.min_spec(b)) <= worth(a) && worth(a.min_spec(b)) <= worth(b),
        a.max_spec(b) == a || a.max_spec(b) == b,
        worth(a.max_spec(b)) >= worth(a) && worth(a.max_spec(b)) >= worth(b),
        worth(a.abs_spec()) == size(worth(a)),
        worth(a.neg_spec()) == -worth(a),
{
    lemma_order(a, b);
    lemma_order(b, a);
    lemma_magnitude(a);
}

/// What is not a number is neither less nor greater than anything, counts as nothing, and gives way
/// to any number.
pub proof fn law_what_is_not_a_number(a: Single, b: Single, max: nat)
    requires
        a.is_nan(),
    ensures
        !a.lt(b) && !b.lt(a) && !a.ge(b) && !b.ge(a),
        a.rounded() == 0,
        a.truncated(max) == 0,
        a.min_spec(b) == b,
        a.max_spec(b) == b,
        !b.is_nan() ==> b.min_spec(a) == b && b.max_spec(a) == b,
{
}

/// What is beyond all numbers counts as the most that there is, below all numbers as nothing.
pub proof fn law_what_is_beyond_all_numbers(max: nat)
    requires
        max <= 0x1_0000_0000_0000_0000,
    ensures
        (Single { bits: INFINITY }).rounded() == 255,
        (Single { bits: INFINITY }).truncated(max) == max,
        (Single { bits: INFINITY }).neg_spec().rounded() == 0,
        (Single { bits: INFINITY }).neg_spec().truncated(max) == 0,
{
    let beyond = Single { bits: INFINITY };
    crate::reals::lemma_greatest();
    crate::single::lemma_units_increase(GREATEST as nat, INFINITY as nat);
    lemma_turned_sign(beyond);
    let (v, p) = (beyond.value(), units_in_one() as int);
    assert(v >= 0x1_0000_0000_0000_0000 * p);
    let k = 0x1_0000_0000_0000_0000int;
    lemma_quotient_at_least(v, p, k);
    assert(k * (2 * p) == 2 * (k * p)) by (nonlinear_arith);
    lemma_quotient_at_least(2 * v + p, 2 * p, k);
}

proof fn lemma_quotient_at_least(a: int, b: int, k: int)
    requires
        b > 0,
        a >= k * b,
    ensures
        a / b >= k,
{
    vstd::arithmetic::div_mod::lemma_fundamental_div_mod(a, b);
    let q = a / b;
    if q < k {
        vstd::arithmetic::mul::lemma_mul_inequality(q + 1, k, b);
        assert((q + 1) * b == b * q + b) by (nonlinear_arith);
    }
}

}
