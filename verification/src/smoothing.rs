//! What an image shows of a canvas, by the arithmetic of IEEE 754.
use crate::arith::{over, plus, times, whole};
use crate::ieee::{
    ieee, lemma_nearest_exact, lemma_signed, lemma_some_magnitudes, nearest_product,
    nearest_quotient, nearest_sum,
};
use crate::pixels::{ImageView, Rgba};
use crate::raster::{opacity, unpacked};
use crate::reals::{
    is_finite, lemma_quotient_error, lemma_representable, lemma_rounded, lemma_whole_is_exact,
    lemma_whole_product, part, size, speck, worth,
};
use crate::render::{alpha_sum, averaged, is_image_of, weighed_sum};
use crate::single::{
    units, units_in_one, Single, FOUR, INFINITY, ONE, TWO_HUNDRED_FIFTY_FIVE, ZERO,
};
use vstd::arithmetic::power2::{lemma2_to64, lemma_pow2_pos, lemma_pow2_strictly_increases, pow2};
use vstd::prelude::*;

verus! {

/// Where the canvas pixel in the given column and row stands, on a canvas that is `width` wide.
pub open spec fn cell(width: int, column: int, row: int) -> int {
    row * width + column
}

/// Whether two canvases that are twice as wide and high as an image of size `n` agree on the four
/// pixels that the image pixel in column `x` and row `y` covers: those in the columns `2x` and
/// `2x + 1` and the rows `2y` and `2y + 1`.
pub open spec fn agree_below(a: Seq<u32>, b: Seq<u32>, n: int, x: int, y: int) -> bool {
    forall|column: int, row: int|
        #![trigger a[cell(2 * n, column, row)]]
        2 * x <= column <= 2 * x + 1 && 2 * y <= row <= 2 * y + 1 ==> a[cell(2 * n, column, row)]
            == b[cell(2 * n, column, row)]
}

/// A smoothed pixel depends on just the four pixels of the canvas that it covers.
pub proof fn law_smoothing_is_local(
    image: ImageView,
    other: ImageView,
    a: Seq<u32>,
    b: Seq<u32>,
    n: int,
    x: int,
    y: int,
)
    requires
        is_image_of(ieee(), image, a, n, true),
        is_image_of(ieee(), other, b, n, true),
        0 <= x < n,
        0 <= y < n,
        agree_below(a, b, n, x, y),
    ensures
        image.pixel(x, y) == other.pixel(x, y),
{
    assert(image.has(x, y) && other.has(x, y));
    assert(a[cell(2 * n, 2 * x, 2 * y)] == b[cell(2 * n, 2 * x, 2 * y)]);
    assert(a[cell(2 * n, 2 * x + 1, 2 * y)] == b[cell(2 * n, 2 * x + 1, 2 * y)]);
    assert(a[cell(2 * n, 2 * x, 2 * y + 1)] == b[cell(2 * n, 2 * x, 2 * y + 1)]);
    assert(a[cell(2 * n, 2 * x + 1, 2 * y + 1)] == b[cell(2 * n, 2 * x + 1, 2 * y + 1)]);
    assert(image.pixel(x, y) == other.pixel(x, y));
}

/// Without smoothing, a pixel shows the canvas pixel in the same column and row.
pub proof fn law_plain_pixels_stay_in_place(
    image: ImageView,
    colors: Seq<u32>,
    n: int,
    x: int,
    y: int,
)
    requires
        is_image_of(ieee(), image, colors, n, false),
        0 <= x < n,
        0 <= y < n,
    ensures
        image.pixel(x, y) == unpacked(colors[cell(n, x, y)]),
{
    assert(image.has(x, y));
}

/// The sum of two whole numbers is a whole number.
pub proof fn lemma_whole_sum(i: u64, j: u64)
    requires
        i + j < 0x100_0000,
    ensures
        plus(ieee(), whole(ieee(), i), whole(ieee(), j)) == whole(ieee(), (i + j) as u64),
{
    lemma_whole_value(i);
    lemma_whole_value(j);
    let p = units_in_one() as int;
    assert(i * p + j * p == (i + j) * p) by (nonlinear_arith);
    lemma_pow2_pos(149);
    let (a, b) = (whole(ieee(), i), whole(ieee(), j));
    assert(plus(ieee(), a, b) == nearest_sum(a, b));
    if i + j == 0 {
        assert(0 * p == 0);
        lemma_nearest_exact(0, 1, 0);
    } else {
        assert((i + j) * p > 0) by (nonlinear_arith)
            requires
                i + j > 0,
                p > 0,
        ;
    }
}

/// A whole number is as many units as it says.
pub proof fn lemma_whole_value(n: u64)
    requires
        n < 0x100_0000,
    ensures
        is_finite(whole(ieee(), n)),
        !whole(ieee(), n).is_negative(),
        units(whole(ieee(), n).magnitude()) == n * units_in_one(),
        whole(ieee(), n).value() == n * units_in_one(),
{
    lemma_representable(n as nat, 149);
    let m = choose|m: nat| m < INFINITY && #[trigger] units(m) == n * pow2(149);
    lemma_nearest_exact(n as nat * units_in_one(), 1, m);
    lemma_signed(false, m);
}

/// The product of two whole numbers is a whole number.
pub proof fn lemma_product_of_whole(i: u64, j: u64)
    requires
        i * j < 0x100_0000,
        i < 0x100_0000,
        j < 0x100_0000,
    ensures
        times(ieee(), whole(ieee(), i), whole(ieee(), j)) == whole(ieee(), (i * j) as u64),
{
    lemma_whole_value(i);
    lemma_whole_value(j);
    assert(0 <= i * j) by (nonlinear_arith);
    let k = (i * j) as u64;
    lemma_whole_value(k);
    let p = units_in_one() as int;
    let (a, b) = (whole(ieee(), i), whole(ieee(), j));
    assert(times(ieee(), a, b) == nearest_product(a, b));
    let m = whole(ieee(), k).magnitude();
    assert((i * p) * (j * p) == (k * p) * p) by (nonlinear_arith)
        requires
            k == i * j,
    ;
    lemma_pow2_pos(149);
    lemma_nearest_exact(((i * p) * (j * p)) as nat, units_in_one(), m);
    lemma_nearest_exact(k as nat * units_in_one(), 1, m);
}

/// The quotient of two whole numbers, where it is a whole number.
pub proof fn lemma_quotient_of_whole(i: u64, j: u64)
    requires
        i * j < 0x100_0000,
        i < 0x100_0000,
        0 < j < 0x100_0000,
    ensures
        over(ieee(), whole(ieee(), (i * j) as u64), whole(ieee(), j)) == whole(ieee(), i),
{
    assert(0 <= i * j) by (nonlinear_arith);
    let k = (i * j) as u64;
    lemma_whole_value(i);
    lemma_whole_value(j);
    lemma_whole_value(k);
    let p = units_in_one() as int;
    lemma_pow2_pos(149);
    let (a, b) = (whole(ieee(), k), whole(ieee(), j));
    assert(over(ieee(), a, b) == nearest_quotient(a, b));
    let m = whole(ieee(), i).magnitude();
    assert((k * p) * p == (i * p) * (j * p)) by (nonlinear_arith)
        requires
            k == i * j,
    ;
    assert(j * p > 0) by (nonlinear_arith)
        requires
            j > 0,
            p > 0,
    ;
    assert(units(0) == 0);
    lemma_nearest_exact(((k * p) * p) as nat, (j * p) as nat, m);
    lemma_nearest_exact(i as nat * units_in_one(), 1, m);
}

/// Some singles that are whole numbers.
pub proof fn lemma_whole_constants()
    ensures
        whole(ieee(), 0) == (Single { bits: ZERO }),
        whole(ieee(), 1) == (Single { bits: ONE }),
        whole(ieee(), 4) == (Single { bits: FOUR }),
        whole(ieee(), 255) == (Single { bits: TWO_HUNDRED_FIFTY_FIVE }),
{
    lemma_some_magnitudes();
    lemma2_to64();
    let p = units_in_one();
    assert(0 * p == 0 && 1 * p == p);
    lemma_nearest_exact(0 * p, 1, 0);
    lemma_nearest_exact(1 * p, 1, ONE as nat);
    lemma_nearest_exact(255 * p, 1, TWO_HUNDRED_FIFTY_FIVE as nat);
    assert(units(FOUR as nat) == 4 * p) by {
        vstd::arithmetic::div_mod::lemma_fundamental_div_mod_converse(
            FOUR as int,
            crate::single::EXPONENT_STEP as int,
            129,
            0,
        );
        vstd::arithmetic::power2::lemma_pow2_adds(23, 128);
        vstd::arithmetic::power2::lemma_pow2_adds(2, 149);
    }
    lemma_nearest_exact(4 * p, 1, FOUR as nat);
}

/// Whether a pixel is opaque or fully transparent.
pub open spec fn is_all_or_nothing(p: Rgba) -> bool {
    p.a == 255 || p.a == 0
}

/// One for an opaque pixel, zero for a transparent one.
pub open spec fn count(p: Rgba) -> int {
    if p.a == 255 {
        1
    } else {
        0
    }
}

/// The opacity of a pixel that is opaque or transparent, as a whole number.
proof fn lemma_opacity_of(p: Rgba)
    requires
        is_all_or_nothing(p),
    ensures
        opacity(ieee(), p.a) == whole(ieee(), count(p) as u64),
{
    lemma_whole_constants();
    if p.a == 255 {
        lemma_quotient_of_whole(1, 255);
    } else {
        lemma_quotient_of_whole(0, 255);
    }
}

/// The alphas of pixels that are opaque or transparent, added up.
proof fn lemma_alpha_sum(p: (Rgba, Rgba, Rgba, Rgba))
    requires
        is_all_or_nothing(p.0),
        is_all_or_nothing(p.1),
        is_all_or_nothing(p.2),
        is_all_or_nothing(p.3),
    ensures
        alpha_sum(ieee(), (p.0.a, p.1.a, p.2.a, p.3.a)) == whole(
            ieee(),
            (count(p.0) + count(p.1) + count(p.2) + count(p.3)) as u64,
        ),
{
    lemma_whole_constants();
    lemma_opacity_of(p.0);
    lemma_opacity_of(p.1);
    lemma_opacity_of(p.2);
    lemma_opacity_of(p.3);
    let (a, b, c, d) = (
        count(p.0) as u64,
        count(p.1) as u64,
        count(p.2) as u64,
        count(p.3) as u64,
    );
    lemma_whole_sum(0, a);
    lemma_whole_sum(a, b);
    lemma_whole_sum((a + b) as u64, c);
    lemma_whole_sum((a + b + c) as u64, d);
}

/// A channel of four pixels that are opaque or transparent, added up over the opaque ones.
proof fn lemma_channel_sum(p: (Rgba, Rgba, Rgba, Rgba), c: (u8, u8, u8, u8))
    requires
        is_all_or_nothing(p.0),
        is_all_or_nothing(p.1),
        is_all_or_nothing(p.2),
        is_all_or_nothing(p.3),
    ensures
        weighed_sum(ieee(), c, (p.0.a, p.1.a, p.2.a, p.3.a)) == whole(
            ieee(),
            (count(p.0) * c.0 + count(p.1) * c.1 + count(p.2) * c.2 + count(p.3) * c.3) as u64,
        ),
{
    lemma_whole_constants();
    lemma_part(p.0, c.0);
    lemma_part(p.1, c.1);
    lemma_part(p.2, c.2);
    lemma_part(p.3, c.3);
    let (w, x, y, z) = (
        (count(p.0) * c.0) as u64,
        (count(p.1) * c.1) as u64,
        (count(p.2) * c.2) as u64,
        (count(p.3) * c.3) as u64,
    );
    lemma_whole_sum(0, w);
    lemma_whole_sum(w, x);
    lemma_whole_sum((w + x) as u64, y);
    lemma_whole_sum((w + x + y) as u64, z);
}

proof fn lemma_part(p: Rgba, c: u8)
    requires
        is_all_or_nothing(p),
    ensures
        0 <= count(p) * c <= 255,
        times(ieee(), whole(ieee(), c as u64), opacity(ieee(), p.a)) == whole(
            ieee(),
            (count(p) * c) as u64,
        ),
{
    lemma_opacity_of(p);
    if p.a == 255 {
        lemma_product_of_whole(c as u64, 1);
    } else {
        lemma_product_of_whole(c as u64, 0);
    }
}

/// How far a byte may be from the mean of whole numbers: `total` over `n` of them.
pub open spec fn is_rounded_mean(byte: u8, total: int, n: int) -> bool {
    -n <= 2 * (n * byte - total) <= n
}

proof fn lemma_mean(total: u64, n: u64)
    requires
        0 < n <= 4,
        total <= 255 * n,
    ensures
        is_rounded_mean(
            over(ieee(), whole(ieee(), total), whole(ieee(), n)).rounded() as u8,
            total as int,
            n as int,
        ),
        over(ieee(), whole(ieee(), total), whole(ieee(), n)).rounded() <= 255,
{
    lemma_whole_is_exact(total);
    lemma_whole_is_exact(n);
    let (a, b) = (whole(ieee(), total), whole(ieee(), n));
    let (x, y) = (total as real, n as real);
    let z = x / y;
    assert(z * y == x && 0 as real <= z <= 255 as real) by (nonlinear_arith)
        requires
            z == x / y,
            (0 as real) < y <= 4 as real,
            0 as real <= x <= 255 as real * y,
    ;
    lemma_quotient_error(a, b);
    lemma_rounded(over(ieee(), a, b));
    let q = worth(over(ieee(), a, b));
    let h = speck();
    assert(h <= 1 as real / 1000 as real) by {
        lemma2_to64();
        lemma_pow2_strictly_increases(20, 149);
        let u = units_in_one() as real;
        assert(u >= 1000 as real);
        assert(h <= 1 as real / 1000 as real) by (nonlinear_arith)
            requires
                h == 1 as real / (2 as real * u),
                u >= 1000 as real,
        ;
    }
    let small = part();
    assert(small * z <= 1 as real / 1000 as real) by (nonlinear_arith)
        requires
            small == 1 as real / 0x100_0000 as real,
            z <= 255 as real,
    ;
    assert(size(q - z) <= 2 as real / 1000 as real);
    let r = over(ieee(), a, b).rounded();
    let w = r as real;
    let half = 1 as real / 2 as real;
    assert(w - half - 2 as real / 1000 as real <= z);
    assert(r < 255 ==> z <= w + half + 2 as real / 1000 as real);
    assert(z <= w + half + 2 as real / 1000 as real);
    let t = w * y - x;
    assert(-(half + 2 as real / 1000 as real) * y <= t <= (half + 2 as real / 1000 as real) * y)
        by (nonlinear_arith)
        requires
            t == w * y - x,
            z * y == x,
            w - half - 2 as real / 1000 as real <= z,
            z <= w + half + 2 as real / 1000 as real,
            y > 0 as real,
    ;
    lemma_whole_product(n as int, r as int);
    let k = 2 * (n * r - total);
    assert(k as real == 2 as real * t) by (nonlinear_arith)
        requires
            k as real == 2 as real * ((n * r) as real - total as real),
            (n * r) as real == y * w,
            total as real == x,
            t == w * y - x,
    ;
    let edge = (half + 2 as real / 1000 as real) * y;
    assert(2 as real * edge <= y + 1 as real / 10 as real) by (nonlinear_arith)
        requires
            edge == (half + 2 as real / 1000 as real) * y,
            half == 1 as real / 2 as real,
            (0 as real) < y <= 4 as real,
    ;
    assert(-edge <= t <= edge) by (nonlinear_arith)
        requires
            -(half + 2 as real / 1000 as real) * y <= t <= (half + 2 as real / 1000 as real) * y,
            edge == (half + 2 as real / 1000 as real) * y,
    ;
    assert(-(n as real) - 1 as real / 10 as real <= k as real <= n as real + 1 as real / 10 as real);
    assert(-n <= k <= n);
}

/// Whether `r` is the mean of those of four pixels that are opaque, each channel rounded, with
/// the part of them that is opaque as its alpha; transparent where none is.
pub open spec fn is_mean_of_opaque(r: Rgba, p: (Rgba, Rgba, Rgba, Rgba)) -> bool {
    let (i, j, k, l) = (count(p.0), count(p.1), count(p.2), count(p.3));
    let n = i + j + k + l;
    &&& n == 0 ==> r == (Rgba { r: 0, g: 0, b: 0, a: 0 })
    &&& n > 0 ==> {
        &&& is_rounded_mean(r.r, i * p.0.r + j * p.1.r + k * p.2.r + l * p.3.r, n)
        &&& is_rounded_mean(r.g, i * p.0.g + j * p.1.g + k * p.2.g + l * p.3.g, n)
        &&& is_rounded_mean(r.b, i * p.0.b + j * p.1.b + k * p.2.b + l * p.3.b, n)
    }
    &&& is_rounded_mean(r.a, 255 * n, 4)
}

/// Of four pixels that are opaque or transparent, the opaque ones count alike and the transparent
/// ones not at all: each channel is their mean, rounded, and the alpha is the part of them that
/// is opaque. Where all are transparent, so is the average.
pub proof fn law_average_of_opaque_pixels(p: (Rgba, Rgba, Rgba, Rgba))
    requires
        is_all_or_nothing(p.0),
        is_all_or_nothing(p.1),
        is_all_or_nothing(p.2),
        is_all_or_nothing(p.3),
    ensures
        is_mean_of_opaque(averaged(ieee(), p), p),
{
    let n = count(p.0) + count(p.1) + count(p.2) + count(p.3);
    let k = n as u64;
    lemma_alpha_sum(p);
    lemma_whole_constants();
    lemma_channel_sum(p, (p.0.r, p.1.r, p.2.r, p.3.r));
    lemma_channel_sum(p, (p.0.g, p.1.g, p.2.g, p.3.g));
    lemma_channel_sum(p, (p.0.b, p.1.b, p.2.b, p.3.b));
    lemma_whole_value(k);
    let p1 = units_in_one() as int;
    lemma_pow2_pos(149);
    let sum = whole(ieee(), k);
    let zero = Single { bits: ZERO };
    assert(zero.value() == 0);
    assert(zero.lt(sum) == (n > 0)) by {
        assert((n * p1 > 0) == (n > 0)) by (nonlinear_arith)
            requires
                p1 > 0,
                n >= 0,
        ;
    }
    if n > 0 {
        let total = |c: (u8, u8, u8, u8)|
            (count(p.0) * c.0 + count(p.1) * c.1 + count(p.2) * c.2 + count(p.3) * c.3) as u64;
        lemma_mean(total((p.0.r, p.1.r, p.2.r, p.3.r)), k);
        lemma_mean(total((p.0.g, p.1.g, p.2.g, p.3.g)), k);
        lemma_mean(total((p.0.b, p.1.b, p.2.b, p.3.b)), k);
    }
    lemma_average_alpha(k);
}

/// The alpha of an average of which `n` out of four pixels are opaque.
proof fn lemma_average_alpha(n: u64)
    requires
        n <= 4,
    ensures
        ({
            let part = over(ieee(), whole(ieee(), n), whole(ieee(), 4));
            let a = times(ieee(), part, whole(ieee(), 255)).rounded();
            a <= 255 && is_rounded_mean(a as u8, 255 * n, 4)
        }),
{
    lemma_whole_is_exact(n);
    lemma_whole_is_exact(4);
    lemma_whole_is_exact(255);
    let quarter = over(ieee(), whole(ieee(), n), whole(ieee(), 4));
    lemma_quotient_error(whole(ieee(), n), whole(ieee(), 4));
    let (x, y) = (worth(quarter), n as real / 4 as real);
    let h = speck();
    assert(0 as real <= h <= 1 as real / 1000000 as real) by {
        lemma2_to64();
        lemma_pow2_strictly_increases(20, 149);
        let u = units_in_one() as real;
        assert(u >= 1000000 as real);
        assert(0 as real <= h <= 1 as real / 1000000 as real) by (nonlinear_arith)
            requires
                h == 1 as real / (2 as real * u),
                u >= 1000000 as real,
        ;
    }
    let small = part();
    assert(small * y <= 1 as real / 1000000 as real) by (nonlinear_arith)
        requires
            small == 1 as real / 0x100_0000 as real,
            0 as real <= y <= 1 as real,
    ;
    assert(size(x - y) <= 2 as real / 1000000 as real);
    lemma_product_error_of(quarter);
    let a = times(ieee(), quarter, whole(ieee(), 255));
    lemma_rounded(a);
    let v = worth(a);
    let w = x * 255 as real;
    assert(size(small * w) <= 1 as real / 10000 as real) by (nonlinear_arith)
        requires
            small == 1 as real / 0x100_0000 as real,
            -1 as real <= w <= 256 as real,
    ;
    assert(size(v - 255 as real * y) <= 1 as real / 100 as real);
    let r = a.rounded();
    assert(255 as real * y == (255 * n) as real / 4 as real);
    assert(4 as real * (r as real) - (255 * n) as real <= 2 as real + 4 as real / 100 as real);
    assert(r < 255 ==> (255 * n) as real - 4 as real * (r as real) <= 2 as real + 4 as real
        / 100 as real);
    let k = 2 * (4 * r - 255 * n);
    assert(k as real == 8 as real * (r as real) - 2 as real * ((255 * n) as real));
    assert(-4 <= k <= 4);
}

proof fn lemma_product_error_of(a: Single)
    requires
        is_finite(a),
        size(worth(a)) <= 2 as real,
    ensures
        ({
            let r = times(ieee(), a, whole(ieee(), 255));
            &&& is_finite(r)
            &&& size(worth(r) - worth(a) * 255 as real) <= part() * size(worth(a) * 255 as real)
                + speck()
        }),
{
    lemma_whole_is_exact(255);
    crate::reals::lemma_product_error(a, whole(ieee(), 255));
}

/// The mean of an opaque pixel with itself is that pixel.
proof fn lemma_mean_of_one(r: Rgba, c: Rgba)
    requires
        c.a == 255,
        is_mean_of_opaque(r, (c, c, c, c)),
    ensures
        r == c,
{
    assert(is_rounded_mean(r.r, 4 * c.r, 4));
    assert(is_rounded_mean(r.g, 4 * c.g, 4));
    assert(is_rounded_mean(r.b, 4 * c.b, 4));
    assert(is_rounded_mean(r.a, 1020, 4));
}

/// Four pixels of the same opaque color give a pixel of that color: a canvas that is made of
/// blocks of two by two pixels looks the same smoothed as a canvas of single pixels does plain.
pub proof fn law_uniform_blocks_keep_their_color(
    smooth: ImageView,
    plain: ImageView,
    blocks: Seq<u32>,
    single: Seq<u32>,
    n: int,
    x: int,
    y: int,
)
    requires
        is_image_of(ieee(), smooth, blocks, n, true),
        is_image_of(ieee(), plain, single, n, false),
        0 <= x < n,
        0 <= y < n,
        unpacked(single[cell(n, x, y)]).a == 255,
        forall|column: int, row: int|
            #![trigger blocks[cell(2 * n, column, row)]]
            2 * x <= column <= 2 * x + 1 && 2 * y <= row <= 2 * y + 1 ==> blocks[cell(
                2 * n,
                column,
                row,
            )] == single[cell(n, x, y)],
    ensures
        smooth.pixel(x, y) == plain.pixel(x, y),
        smooth.pixel(x, y) == unpacked(single[cell(n, x, y)]),
{
    assert(smooth.has(x, y) && plain.has(x, y));
    let c = unpacked(single[cell(n, x, y)]);
    assert(blocks[cell(2 * n, 2 * x, 2 * y)] == single[cell(n, x, y)]);
    assert(blocks[cell(2 * n, 2 * x + 1, 2 * y)] == single[cell(n, x, y)]);
    assert(blocks[cell(2 * n, 2 * x, 2 * y + 1)] == single[cell(n, x, y)]);
    assert(blocks[cell(2 * n, 2 * x + 1, 2 * y + 1)] == single[cell(n, x, y)]);
    assert(smooth.pixel(x, y) == averaged(ieee(), (c, c, c, c)));
    law_average_of_opaque_pixels((c, c, c, c));
    lemma_mean_of_one(smooth.pixel(x, y), c);
}

}
