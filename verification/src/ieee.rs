//! The arithmetic of IEEE 754: what the operations on singles give where they round to the
//! nearest single, and to the one with an even bit pattern from halfway.
//!
//! The results that are not numbers are all one: arithmetic that gives others has to give this
//! one in their place to mean what is said here.
use crate::animation::{frame_at, is_blend, law_blending_goes_both_ways};
use crate::arith::{
    alike, differences_oppose, minus, nan_spreads, over, plus, products_commute, sums_commute,
    times, whole, Meaning, Operation,
};
use crate::model::ElementView;
use crate::order::{all_boxes_are_apart, law_any_order};
use crate::pixels::{ImageView, Rgba};
use crate::raster::{
    are_apart, drawn, faint_is_hidden, is_cut_out, is_whole, law_either_order, law_either_winding,
    law_faint_or_opaque_is_cut_out, law_twice_is_once, opacity, opaque_is_exact, piece_drawn,
    Canvas, Piece, Vertex,
};
use crate::render::{
    canvas_scale, is_image_of_scene, is_undrawable, law_empty_scene_is_transparent, scene_canvas,
    zero_is_exact, Projection, Scene,
};
use crate::single::{
    lemma_turned_sign, lemma_units_increase, units, units_in_one, Single, EXPONENT_STEP, FOUR,
    HUNDREDTH, INFINITY, ONE, SIGN, TWO, TWO_HUNDRED_FIFTY_FIVE, ZERO,
};
use vstd::arithmetic::div_mod::lemma_fundamental_div_mod_converse;
use vstd::arithmetic::power2::{lemma2_to64, lemma_pow2_adds, lemma_pow2_pos, pow2};
use vstd::prelude::*;

verus! {

/// The bit pattern of what is not a number.
pub const NOT_A_NUMBER: u32 = 0x7FC0_0000;

/// Whether the magnitude with bit pattern `m` is the greatest that is not above `n / d` units.
pub open spec fn is_floor(n: nat, d: nat, m: nat) -> bool {
    m < INFINITY && units(m) * d <= n < units(m + 1) * d
}

/// The bit pattern of the magnitude nearest to `n / d` units, the even one from halfway, and
/// infinity from halfway between the greatest finite magnitude and the one that would follow.
pub open spec fn nearest(n: nat, d: nat) -> nat {
    if n >= units(INFINITY as nat) * d {
        INFINITY as nat
    } else {
        let m = choose|m: nat| is_floor(n, d, m);
        let halfway = (units(m) + units(m + 1)) * d;
        if 2 * n < halfway || 2 * n == halfway && m % 2 == 0 {
            m
        } else {
            m + 1
        }
    }
}

/// The single with the given sign and magnitude.
pub open spec fn signed(negative: bool, magnitude: nat) -> Single {
    Single {
        bits: if negative {
            (SIGN + magnitude) as u32
        } else {
            magnitude as u32
        },
    }
}

/// Whether a single is infinite.
pub open spec fn is_infinite(a: Single) -> bool {
    a.magnitude() == INFINITY
}

/// What is not a number.
pub open spec fn not_a_number() -> Single {
    Single { bits: NOT_A_NUMBER }
}

/// `a + b`. A sum of nothing is positive, except that of two negative zeros.
pub open spec fn nearest_sum(a: Single, b: Single) -> Single {
    if a.is_nan() || b.is_nan() {
        not_a_number()
    } else if is_infinite(a) {
        if is_infinite(b) && a.is_negative() != b.is_negative() {
            not_a_number()
        } else {
            a
        }
    } else if is_infinite(b) {
        b
    } else {
        let sum = a.value() + b.value();
        if sum == 0 {
            signed(a.is_negative() && b.is_negative(), 0)
        } else if sum < 0 {
            signed(true, nearest((-sum) as nat, 1))
        } else {
            signed(false, nearest(sum as nat, 1))
        }
    }
}

/// `a * b`.
pub open spec fn nearest_product(a: Single, b: Single) -> Single {
    let negative = a.is_negative() != b.is_negative();
    if a.is_nan() || b.is_nan() {
        not_a_number()
    } else if is_infinite(a) && b.magnitude() == 0 || a.magnitude() == 0 && is_infinite(b) {
        not_a_number()
    } else if is_infinite(a) || is_infinite(b) {
        signed(negative, INFINITY as nat)
    } else {
        signed(negative, nearest(units(a.magnitude()) * units(b.magnitude()), units_in_one()))
    }
}

/// `a / b`.
pub open spec fn nearest_quotient(a: Single, b: Single) -> Single {
    let negative = a.is_negative() != b.is_negative();
    if a.is_nan() || b.is_nan() {
        not_a_number()
    } else if is_infinite(a) && is_infinite(b) || a.magnitude() == 0 && b.magnitude() == 0 {
        not_a_number()
    } else if is_infinite(a) || b.magnitude() == 0 {
        signed(negative, INFINITY as nat)
    } else if is_infinite(b) {
        signed(negative, 0)
    } else {
        signed(negative, nearest(units(a.magnitude()) * units_in_one(), units(b.magnitude())))
    }
}

/// What the operations give by IEEE 754.
pub open spec fn ieee() -> Meaning {
    |op: Operation|
        match op {
            Operation::Add(a, b) => nearest_sum(a, b),
            Operation::Subtract(a, b) => nearest_sum(a, b.neg_spec()),
            Operation::Multiply(a, b) => nearest_product(a, b),
            Operation::Divide(a, b) => nearest_quotient(a, b),
            Operation::Convert(n) => signed(false, nearest(n as nat * units_in_one(), 1)),
        }
}

/// There is a greatest magnitude that is not above a given one, below `m`.
pub proof fn lemma_floor_exists(n: nat, d: nat, m: nat)
    requires
        d > 0,
        m <= INFINITY,
        n < units(m) * d,
    ensures
        exists|k: nat| is_floor(n, d, k),
    decreases m,
{
    assert(units(0) * d == 0) by (nonlinear_arith)
        requires
            units(0) == 0,
    ;
    let k = (m - 1) as nat;
    if units(k) * d <= n {
        assert(is_floor(n, d, k));
    } else {
        lemma_floor_exists(n, d, k);
    }
}

/// There is but one such magnitude.
pub proof fn lemma_floor_is_unique(n: nat, d: nat, a: nat, b: nat)
    requires
        d > 0,
        is_floor(n, d, a),
        is_floor(n, d, b),
    ensures
        a == b,
{
    if a < b {
        lemma_no_later(a + 1, b, d);
    } else if b < a {
        lemma_no_later(b + 1, a, d);
    }
}

pub proof fn lemma_no_later(a: nat, b: nat, d: nat)
    requires
        a <= b,
    ensures
        units(a) * d <= units(b) * d,
{
    if a < b {
        lemma_units_increase(a, b);
    }
    let (x, y) = (units(a), units(b));
    assert(x * d <= y * d) by (nonlinear_arith)
        requires
            x <= y,
            d >= 0,
    ;
}

/// A magnitude that is a single is nearest to itself.
pub proof fn lemma_nearest_exact(n: nat, d: nat, m: nat)
    requires
        d > 0,
        m < INFINITY,
        n == units(m) * d,
    ensures
        nearest(n, d) == m,
{
    lemma_units_increase(m, m + 1);
    lemma_no_later(m + 1, INFINITY as nat, d);
    let (x, y) = (units(m), units(m + 1));
    assert(x * d < y * d && 2 * (x * d) < (x + y) * d) by (nonlinear_arith)
        requires
            x < y,
            d > 0,
    ;
    assert(is_floor(n, d, m));
    lemma_floor_is_unique(n, d, m, choose|k: nat| is_floor(n, d, k));
}

/// A magnitude that is not above a single is not nearest to one above it.
pub proof fn lemma_nearest_bounded(n: nat, d: nat, m: nat)
    requires
        d > 0,
        m < INFINITY,
        n <= units(m) * d,
    ensures
        nearest(n, d) <= m,
{
    if n == units(m) * d {
        lemma_nearest_exact(n, d, m);
    } else {
        lemma_no_later(m, INFINITY as nat, d);
        lemma_floor_exists(n, d, m);
        let k = choose|k: nat| is_floor(n, d, k);
        if k >= m {
            lemma_no_later(m, k, d);
        }
    }
}

/// What is nearest is a magnitude of a single, infinity at most.
pub proof fn lemma_nearest_is_magnitude(n: nat, d: nat)
    requires
        d > 0,
    ensures
        nearest(n, d) <= INFINITY,
{
    if n < units(INFINITY as nat) * d {
        lemma_floor_exists(n, d, INFINITY as nat);
    }
}

/// The parts of a single put together.
pub proof fn lemma_signed(negative: bool, m: nat)
    requires
        m < SIGN,
    ensures
        signed(negative, m).is_negative() == negative,
        signed(negative, m).magnitude() == m,
        signed(!negative, m) == signed(negative, m).neg_spec(),
{
}

/// A single is its sign and its magnitude.
pub proof fn lemma_parts(a: Single)
    ensures
        a == signed(a.is_negative(), a.magnitude()),
        a.magnitude() < SIGN,
{
}

/// The order of the two does not matter for a sum.
proof fn lemma_sum_commutes(a: Single, b: Single)
    ensures
        nearest_sum(a, b) == nearest_sum(b, a),
{
    lemma_parts(a);
    lemma_parts(b);
}

/// The order of the two does not matter for a product.
proof fn lemma_product_commutes(a: Single, b: Single)
    ensures
        nearest_product(a, b) == nearest_product(b, a),
{
    let (x, y) = (units(a.magnitude()), units(b.magnitude()));
    assert(x * y == y * x) by (nonlinear_arith);
}

/// A difference, taken the other way round, has the other sign, where it is a number and not zero.
proof fn lemma_difference_opposes(a: Single, b: Single)
    ensures
        ({
            let d = nearest_sum(a, b.neg_spec());
            let e = nearest_sum(b, a.neg_spec());
            ||| d.is_nan() && e.is_nan()
            ||| !d.is_nan() && !e.is_nan() && d.value() == 0 && e.value() == 0
            ||| e == d.neg_spec()
        }),
{
    lemma_turned_sign(a);
    lemma_turned_sign(b);
    lemma_parts(a);
    lemma_parts(b);
    lemma_parts(a.neg_spec());
    lemma_parts(b.neg_spec());
    let finite = !a.is_nan() && !b.is_nan() && !is_infinite(a) && !is_infinite(b);
    if finite {
        let sum = a.value() - b.value();
        if sum == 0 {
            lemma_signed(true, 0);
            lemma_signed(false, 0);
        } else {
            let n = if sum < 0 {
                (-sum) as nat
            } else {
                sum as nat
            };
            lemma_nearest_is_magnitude(n, 1);
            lemma_signed(sum < 0, nearest(n, 1));
        }
    }
}

proof fn lemma_sums_commute()
    ensures
        sums_commute(ieee()),
{
    assert forall|a: Single, b: Single|
        alike(#[trigger] plus(ieee(), a, b), plus(ieee(), b, a)) by {
        lemma_sum_commutes(a, b);
    }
}

proof fn lemma_products_commute()
    ensures
        products_commute(ieee()),
{
    assert forall|a: Single, b: Single|
        alike(#[trigger] times(ieee(), a, b), times(ieee(), b, a)) by {
        lemma_product_commutes(a, b);
    }
}

proof fn lemma_differences_oppose()
    ensures
        differences_oppose(ieee()),
{
    assert forall|a: Single, b: Single|
        {
            let d = #[trigger] minus(ieee(), a, b);
            let e = minus(ieee(), b, a);
            ||| d.is_nan() && e.is_nan()
            ||| !d.is_nan() && !e.is_nan() && d.value() == 0 && e.value() == 0
            ||| e == d.neg_spec()
        } by {
        lemma_difference_opposes(a, b);
    }
}

proof fn lemma_nan_spreads()
    ensures
        nan_spreads(ieee()),
{
    assert(not_a_number().is_nan());
    assert forall|a: Single, b: Single| a.is_nan() || b.is_nan() implies (#[trigger] minus(
        ieee(),
        a,
        b,
    )).is_nan() by {
        lemma_turned_sign(b);
    }
}

/// By IEEE 754 sums and products do not depend on the order of the two, differences change their
/// sign with it, and what is computed from what is not a number is not a number.
pub proof fn law_ieee_is_symmetric()
    ensures
        sums_commute(ieee()),
        products_commute(ieee()),
        differences_oppose(ieee()),
        nan_spreads(ieee()),
{
    lemma_sums_commute();
    lemma_products_commute();
    lemma_differences_oppose();
    lemma_nan_spreads();
}

/// The magnitudes of some numbers, in units.
pub proof fn lemma_some_magnitudes()
    ensures
        units(0) == 0,
        units_in_one() > 0,
        units(ONE as nat) == units_in_one(),
        units(TWO_HUNDRED_FIFTY_FIVE as nat) == 255 * units_in_one(),
        2 * units_in_one() <= units(HUNDREDTH as nat) * 255,
        units(FOUR as nat) > 0,
{
    let step = EXPONENT_STEP as nat;
    lemma2_to64();
    lemma_pow2_pos(149);
    lemma_pow2_pos(119);
    lemma_pow2_adds(23, 126);
    lemma_pow2_adds(16, 133);
    lemma_pow2_adds(30, 119);
    lemma_fundamental_div_mod_converse(ONE as int, step as int, 127, 0);
    lemma_fundamental_div_mod_converse(
        TWO_HUNDRED_FIFTY_FIVE as int,
        step as int,
        134,
        0x7F_0000,
    );
    lemma_fundamental_div_mod_converse(HUNDREDTH as int, step as int, 120, 0x23_D70A);
    lemma_units_increase(0, FOUR as nat);
    let (p, q) = (pow2(133), pow2(119));
    assert(0xFF_0000 * p == 255 * (0x1_0000 * p)) by (nonlinear_arith);
    assert(2 * (0x4000_0000 * q) <= (0xA3_D70A * q) * 255) by (nonlinear_arith)
        requires
            q > 0,
    ;
}

/// The single of a byte: no sign, and no more than 255.
proof fn lemma_byte(a: u8)
    ensures
        !whole(ieee(), a as u64).is_negative(),
        whole(ieee(), a as u64).magnitude() <= TWO_HUNDRED_FIFTY_FIVE,
{
    lemma_some_magnitudes();
    let n = a as nat * units_in_one();
    let p = units_in_one();
    assert(a * p <= 255 * p) by (nonlinear_arith)
        requires
            a <= 255,
            p > 0,
    ;
    lemma_nearest_bounded(n, 1, TWO_HUNDRED_FIFTY_FIVE as nat);
    lemma_signed(false, nearest(n, 1));
}

proof fn lemma_is_whole(a: u8, m: nat)
    requires
        m < INFINITY,
        units(m) == a as nat * units_in_one(),
    ensures
        whole(ieee(), a as u64) == signed(false, m),
{
    lemma_some_magnitudes();
    lemma_nearest_exact(a as nat * units_in_one(), 1, m);
}

/// An opacity: no sign, and no more than one.
proof fn lemma_opacity(a: u8)
    ensures
        !opacity(ieee(), a).is_negative(),
        opacity(ieee(), a).magnitude() <= ONE,
{
    lemma_byte(a);
    lemma_some_magnitudes();
    let m = whole(ieee(), a as u64).magnitude();
    let full = units(TWO_HUNDRED_FIFTY_FIVE as nat);
    let p = units_in_one();
    let n = units(m) * p;
    lemma_no_later(m, TWO_HUNDRED_FIFTY_FIVE as nat, p);
    assert(full * p == p * full) by (nonlinear_arith);
    assert(full > 0);
    lemma_nearest_bounded(n, full, ONE as nat);
    lemma_signed(false, nearest(n, full));
}

/// What has no sign and is not infinite, times zero, is zero.
proof fn lemma_times_zero(a: Single)
    requires
        !a.is_negative(),
        a.magnitude() < INFINITY,
    ensures
        nearest_product(a, Single { bits: ZERO }) == (Single { bits: ZERO }),
{
    lemma_some_magnitudes();
    let x = units(a.magnitude());
    assert(x * units(0) == 0) by (nonlinear_arith)
        requires
            units(0) == 0,
    ;
    assert(units(0) * units_in_one() == 0) by (nonlinear_arith)
        requires
            units(0) == 0,
    ;
    lemma_nearest_exact(0, units_in_one(), 0);
}

/// A byte weighed by an opacity: no sign, and no more than 255.
proof fn lemma_weighed_byte(c: u8, a: u8)
    ensures
        !times(ieee(), whole(ieee(), c as u64), opacity(ieee(), a)).is_negative(),
        times(ieee(), whole(ieee(), c as u64), opacity(ieee(), a)).magnitude()
            <= TWO_HUNDRED_FIFTY_FIVE,
{
    lemma_byte(c);
    lemma_opacity(a);
    lemma_some_magnitudes();
    let (m, k) = (whole(ieee(), c as u64).magnitude(), opacity(ieee(), a).magnitude());
    let full = units(TWO_HUNDRED_FIFTY_FIVE as nat);
    let p = units_in_one();
    let (x, y) = (units(m), units(k));
    lemma_no_later(m, TWO_HUNDRED_FIFTY_FIVE as nat, 1);
    lemma_no_later(k, ONE as nat, 1);
    assert(x * y <= full * p) by (nonlinear_arith)
        requires
            0 <= x <= full,
            0 <= y <= p,
    ;
    lemma_nearest_bounded(x * y, p, TWO_HUNDRED_FIFTY_FIVE as nat);
    lemma_signed(false, nearest(x * y, p));
}

/// By IEEE 754 full opacity is one, and what it hides counts for nothing.
pub proof fn law_ieee_is_exact_for_opaque()
    ensures
        opaque_is_exact(ieee()),
{
    let sem = ieee();
    let zero = Single { bits: ZERO };
    let one = Single { bits: ONE };
    lemma_some_magnitudes();
    assert(opacity(sem, 255) == one) by {
        let full = units(TWO_HUNDRED_FIFTY_FIVE as nat);
        let p = units_in_one();
        lemma_is_whole(255, TWO_HUNDRED_FIFTY_FIVE as nat);
        assert(full * p == p * full) by (nonlinear_arith);
        lemma_nearest_exact(full * p, full, ONE as nat);
    }
    assert(minus(sem, one, one) == zero) by {
        lemma_turned_sign(one);
    }
    assert forall|a: u8| times(sem, #[trigger] opacity(sem, a), zero) == zero by {
        lemma_opacity(a);
        lemma_times_zero(opacity(sem, a));
    }
    assert forall|c: u8, a: u8|
        times(sem, #[trigger] times(sem, whole(sem, c as u64), opacity(sem, a)), zero) == zero by {
        lemma_weighed_byte(c, a);
        lemma_times_zero(times(sem, whole(sem, c as u64), opacity(sem, a)));
    }
}

/// By IEEE 754 nothing stays nothing.
pub proof fn law_ieee_is_exact_for_zero()
    ensures
        zero_is_exact(ieee()),
{
    let sem = ieee();
    let zero = Single { bits: ZERO };
    lemma_some_magnitudes();
    let p = units_in_one();
    assert(0 * p == 0) by (nonlinear_arith);
    assert(units(0) * p == 0);
    let full = units(TWO_HUNDRED_FIFTY_FIVE as nat);
    let four = units(FOUR as nat);
    assert(units(0) * full == 0 && units(0) * four == 0) by (nonlinear_arith)
        requires
            units(0) == 0,
    ;
    lemma_nearest_exact(0, full, 0);
    lemma_nearest_exact(0, four, 0);
    lemma_nearest_exact(0, p, 0);
    lemma_is_whole(0, 0);
}

/// By IEEE 754 an alpha of at most 2 is less than a hundredth of full opacity.
pub proof fn law_ieee_hides_the_faint()
    ensures
        faint_is_hidden(ieee()),
{
    let sem = ieee();
    let hundredth = Single { bits: HUNDREDTH };
    assert forall|a: u8| a <= 2 implies !hundredth.lt(#[trigger] opacity(sem, a)) by {
        lemma_some_magnitudes();
        let p = units_in_one();
        let whole_a = whole(sem, a as u64);
        let full = units(TWO_HUNDRED_FIFTY_FIVE as nat);
        lemma_small_byte(a);
        let x = units(whole_a.magnitude());
        let h = units(HUNDREDTH as nat);
        assert(x * p <= h * full) by (nonlinear_arith)
            requires
                x <= 2 * p,
                full == 255 * p,
                2 * p <= h * 255,
                p > 0,
        ;
        lemma_nearest_bounded(x * p, full, HUNDREDTH as nat);
        lemma_signed(false, nearest(x * p, full));
        let m = opacity(sem, a).magnitude();
        lemma_no_later(m, HUNDREDTH as nat, 1);
    }
}

/// The single of a byte that is at most 2 is at most 2.
proof fn lemma_small_byte(a: u8)
    requires
        a <= 2,
    ensures
        !whole(ieee(), a as u64).is_negative(),
        whole(ieee(), a as u64).magnitude() < INFINITY,
        units(whole(ieee(), a as u64).magnitude()) <= 2 * units_in_one(),
{
    lemma_byte(a);
    lemma_some_magnitudes();
    lemma_fundamental_div_mod_converse(TWO as int, EXPONENT_STEP as int, 128, 0);
    lemma2_to64();
    lemma_pow2_adds(23, 127);
    lemma_pow2_adds(1, 149);
    let n = a as nat * units_in_one();
    let p = units_in_one();
    assert(a * p <= 2 * p) by (nonlinear_arith)
        requires
            a <= 2,
            p > 0,
    ;
    assert(units(TWO as nat) == 2 * p);
    lemma_nearest_bounded(n, 1, TWO as nat);
    lemma_signed(false, nearest(n, 1));
    lemma_no_later(nearest(n, 1), TWO as nat, 1);
}

/// Whether an image has pixels, each with full alpha or an alpha of at most 2.
pub open spec fn is_solid(tex: ImageView) -> bool {
    &&& tex.width > 0
    &&& tex.height > 0
    &&& forall|x: int, y: int|
        tex.has(x, y) ==> (#[trigger] tex.pixel(x, y)).a == 255 || tex.pixel(x, y).a <= 2
}

/// Whether each frame that is shown is solid.
pub open spec fn frames_are_solid(scene: Scene) -> bool {
    forall|file: Seq<char>| #[trigger]
        scene.cache.dom().contains(file) ==> is_solid(
            frame_at(scene.cache[file], scene.frame_index),
        )
}

proof fn lemma_solid_is_cut_out(tex: ImageView)
    requires
        is_solid(tex),
    ensures
        is_cut_out(ieee(), tex),
{
    law_ieee_hides_the_faint();
    law_faint_or_opaque_is_cut_out(ieee(), tex);
}

/// With the arithmetic of IEEE 754, it does not matter which way round the corners of a triangle
/// go.
pub proof fn law_winding_does_not_matter(
    before: Canvas,
    w: nat,
    h: nat,
    v0: Vertex,
    v1: Vertex,
    v2: Vertex,
    tex: ImageView,
)
    ensures
        drawn(ieee(), before, w, h, v0, v1, v2, tex) == drawn(
            ieee(),
            before,
            w,
            h,
            v0,
            v2,
            v1,
            tex,
        ),
{
    law_ieee_is_symmetric();
    law_either_winding(ieee(), before, w, h, v0, v1, v2, tex);
}

/// With the arithmetic of IEEE 754, a solid triangle changes nothing when it is drawn a second
/// time.
pub proof fn law_drawing_again_changes_nothing(
    before: Canvas,
    w: nat,
    h: nat,
    v0: Vertex,
    v1: Vertex,
    v2: Vertex,
    tex: ImageView,
)
    requires
        is_whole(before, w, h),
        is_solid(tex),
    ensures
        ({
            let once = drawn(ieee(), before, w, h, v0, v1, v2, tex);
            drawn(ieee(), once, w, h, v0, v1, v2, tex) == once
        }),
{
    lemma_solid_is_cut_out(tex);
    law_twice_is_once(ieee(), before, w, h, Piece { v0, v1, v2, tex });
}

/// With the arithmetic of IEEE 754, two solid triangles that are not at the same depth at any
/// pixel that both cover can be drawn in either order.
pub proof fn law_order_of_triangles_does_not_matter(
    before: Canvas,
    w: nat,
    h: nat,
    p: Piece,
    q: Piece,
)
    requires
        is_whole(before, w, h),
        is_solid(p.tex),
        is_solid(q.tex),
        are_apart(ieee(), w, h, p, q),
    ensures
        piece_drawn(ieee(), piece_drawn(ieee(), before, w, h, p), w, h, q) == piece_drawn(
            ieee(),
            piece_drawn(ieee(), before, w, h, q),
            w,
            h,
            p,
        ),
{
    lemma_solid_is_cut_out(p.tex);
    lemma_solid_is_cut_out(q.tex);
    law_ieee_is_exact_for_opaque();
    law_either_order(ieee(), before, w, h, p, q);
}

/// With the arithmetic of IEEE 754, boxes with solid textures, no two of which are at the same
/// depth at a pixel that both cover, can be drawn in any order: the canvas and the image are the
/// same.
pub proof fn law_order_of_boxes_does_not_matter(
    to: Projection,
    scene: Scene,
    elements: Seq<ElementView>,
    others: Seq<ElementView>,
)
    requires
        frames_are_solid(scene),
        all_boxes_are_apart(ieee(), to, scene, elements),
        elements.to_multiset() == others.to_multiset(),
    ensures
        scene_canvas(ieee(), to, scene, elements) == scene_canvas(ieee(), to, scene, others),
        forall|a: ImageView, b: ImageView, size: int, aa: bool|
            #[trigger] is_image_of_scene(ieee(), to, a, scene, elements, size, aa)
                && #[trigger] is_image_of_scene(ieee(), to, b, scene, others, size, aa) ==> a == b,
{
    law_ieee_is_exact_for_opaque();
    assert forall|file: Seq<char>| #[trigger]
        scene.cache.dom().contains(file) implies is_cut_out(
        ieee(),
        frame_at(scene.cache[file], scene.frame_index),
    ) by {
        lemma_solid_is_cut_out(frame_at(scene.cache[file], scene.frame_index));
    }
    law_any_order(ieee(), to, scene, elements, others);
}

/// With the arithmetic of IEEE 754, every pixel of the image is transparent where there are no
/// boxes, or none of their faces can be drawn.
pub proof fn law_nothing_is_transparent(
    to: Projection,
    scene: Scene,
    elements: Seq<ElementView>,
    image: ImageView,
    target_size: int,
    use_aa: bool,
    x: int,
    y: int,
)
    requires
        forall|i: int| 0 <= i < elements.len() ==> is_undrawable(scene, #[trigger] elements[i]),
        scene.size == target_size * canvas_scale(use_aa),
        is_image_of_scene(ieee(), to, image, scene, elements, target_size, use_aa),
        image.has(x, y),
    ensures
        image.pixel(x, y) == (Rgba { r: 0, g: 0, b: 0, a: 0 }),
{
    law_ieee_is_exact_for_zero();
    law_empty_scene_is_transparent(ieee(), to, scene, elements, image, target_size, use_aa, x, y);
}

/// With the arithmetic of IEEE 754, an image on the way from `a` to `b` is one on the way back,
/// as far from its end as it was from its start.
pub proof fn law_blending_back_is_the_same(
    there: ImageView,
    back: ImageView,
    a: ImageView,
    b: ImageView,
    t: Single,
)
    requires
        a.width == b.width,
        a.height == b.height,
        minus(ieee(), Single { bits: ONE }, minus(ieee(), Single { bits: ONE }, t)) == t,
        is_blend(ieee(), there, a, b, t),
        is_blend(ieee(), back, b, a, minus(ieee(), Single { bits: ONE }, t)),
    ensures
        there == back,
{
    law_ieee_is_symmetric();
    law_blending_goes_both_ways(ieee(), there, back, a, b, t);
}

}
