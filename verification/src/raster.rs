//! Drawing textured triangles onto a canvas with a depth for each pixel.
use crate::arith::{
    accepts_all, add_singles, alike, convert_whole, differences_oppose, divide_singles, means,
    minus, multiply_singles, nan_spreads, over, plus, products_commute, subtract_singles, times,
    whole, Meaning, Operation,
};
use crate::pixels::{ImageView, Rgba, RgbaImage};
use crate::single::{
    lemma_turned_sign, lemma_units_increase, Single, HALF, HUNDREDTH, HUNDRED_THOUSANDTH, ONE,
    TWO_HUNDRED_FIFTY_FIVE, ZERO,
};
use vstd::prelude::*;

verus! {

/// A corner of a triangle: where it lies on the canvas, how far away it is, which
/// point of the texture it shows, and how bright it is.
#[derive(Clone, Copy, Debug)]
pub struct Vertex {
    pub x: Single,
    pub y: Single,
    pub z: Single,
    pub u: Single,
    pub v: Single,
    pub brightness: Single,
}

/// A triangle whose corners go round the way that gives it the positive `area`.
#[derive(Clone, Copy, Debug)]
pub struct Triangle {
    pub v0: Vertex,
    pub v1: Vertex,
    pub v2: Vertex,
    pub area: Single,
}

/// A canvas: the color and the depth of each pixel, row by row.
pub struct Canvas {
    pub colors: Seq<u32>,
    pub depths: Seq<Single>,
}

/// Twice the signed area of the triangle `a`, `b`, `c`, each given by its coordinates.
pub open spec fn edge(
    sem: Meaning,
    a: (Single, Single),
    b: (Single, Single),
    c: (Single, Single),
) -> Single {
    minus(
        sem,
        times(sem, minus(sem, c.0, a.0), minus(sem, b.1, a.1)),
        times(sem, minus(sem, c.1, a.1), minus(sem, b.0, a.0)),
    )
}

impl Vertex {
    /// Where the corner lies on the canvas.
    pub open spec fn at(self) -> (Single, Single) {
        (self.x, self.y)
    }
}

/// The triangle with the given corners; `None` where it has next to no area.
pub open spec fn oriented(sem: Meaning, v0: Vertex, v1: Vertex, v2: Vertex) -> Option<Triangle> {
    let area = edge(sem, v0.at(), v1.at(), v2.at());
    if area.abs_spec().lt(Single { bits: HUNDRED_THOUSANDTH }) {
        None
    } else if area.lt(Single { bits: ZERO }) {
        Some(Triangle { v0, v1: v2, v2: v1, area: area.neg_spec() })
    } else {
        Some(Triangle { v0, v1, v2, area })
    }
}

/// Whether the triangle with the given corners has next to no area.
pub open spec fn has_no_area<F: Fn(Operation) -> Single>(
    arith: F,
    v0: Vertex,
    v1: Vertex,
    v2: Vertex,
) -> bool {
    exists|sem: Meaning| #[trigger] means(arith, sem) && oriented(sem, v0, v1, v2) is None
}

/// The lowest of the pixels `0` to `size - 1` that three coordinates reach.
pub open spec fn lowest(a: Single, b: Single, c: Single, size: nat) -> nat {
    a.min_spec(b).min_spec(c).max_spec(Single { bits: ZERO }).truncated((size - 1) as nat)
}

/// The highest of the pixels `0` to `size - 1` that three coordinates reach.
pub open spec fn highest(a: Single, b: Single, c: Single, size: nat) -> nat {
    a.max_spec(b).max_spec(c).max_spec(Single { bits: ZERO }).truncated((size - 1) as nat)
}

impl Triangle {
    /// Whether the pixel at `x`, `y` lies in the box round the triangle on a
    /// canvas of the given size.
    pub open spec fn reaches(self, w: nat, h: nat, x: int, y: int) -> bool {
        &&& lowest(self.v0.x, self.v1.x, self.v2.x, w) <= x <= highest(
            self.v0.x,
            self.v1.x,
            self.v2.x,
            w,
        )
        &&& lowest(self.v0.y, self.v1.y, self.v2.y, h) <= y <= highest(
            self.v0.y,
            self.v1.y,
            self.v2.y,
            h,
        )
    }
}

/// The four channels of a color: red, green, blue and alpha.
pub open spec fn unpacked(color: u32) -> Rgba {
    Rgba {
        r: (color / 0x1_0000 % 0x100) as u8,
        g: (color / 0x100 % 0x100) as u8,
        b: (color % 0x100) as u8,
        a: (color / 0x100_0000) as u8,
    }
}

/// The color with the given channels.
pub open spec fn packed(p: Rgba) -> u32 {
    (p.a * 0x100_0000 + p.r * 0x1_0000 + p.g * 0x100 + p.b) as u32
}

/// A channel of a texel over a channel of the canvas, each weighed by its alpha.
pub open spec fn layered(
    sem: Meaning,
    src: Single,
    src_a: Single,
    dst: Single,
    dst_a: Single,
    out_a: Single,
) -> Single {
    over(
        sem,
        plus(
            sem,
            times(sem, src, src_a),
            times(sem, times(sem, dst, dst_a), minus(sem, Single { bits: ONE }, src_a)),
        ),
        out_a,
    )
}

/// The alpha channel as a part of one.
pub open spec fn opacity(sem: Meaning, a: u8) -> Single {
    over(sem, whole(sem, a as u64), Single { bits: TWO_HUNDRED_FIFTY_FIVE })
}

/// A texel, as bright as given, over a color of the canvas.
pub open spec fn composed(sem: Meaning, texel: Rgba, brightness: Single, under: u32) -> Rgba {
    let one = Single { bits: ONE };
    let below = unpacked(under);
    let src_a = opacity(sem, texel.a);
    let dst_a = opacity(sem, below.a);
    let out_a = plus(sem, src_a, times(sem, dst_a, minus(sem, one, src_a)));
    let channel = |src: u8, dst: u8|
        if (Single { bits: ZERO }).lt(out_a) {
            layered(
                sem,
                times(sem, whole(sem, src as u64), brightness),
                src_a,
                whole(sem, dst as u64),
                dst_a,
                out_a,
            )
        } else {
            Single { bits: ZERO }
        };
    Rgba {
        r: channel(texel.r, below.r).truncated(255) as u8,
        g: channel(texel.g, below.g).truncated(255) as u8,
        b: channel(texel.b, below.b).truncated(255) as u8,
        a: (times(sem, out_a, Single { bits: TWO_HUNDRED_FIFTY_FIVE }).truncated(u32::MAX as nat)
            % 0x100) as u8,
    }
}

/// The texel of a row or column of `size` that is `part` of the way along it.
pub open spec fn texel_index(sem: Meaning, part: Single, size: nat) -> int {
    let reached = times(sem, part, whole(sem, size as u64)).truncated(u32::MAX as nat);
    if reached < size {
        reached as int
    } else {
        size - 1
    }
}

/// Three values, weighed.
pub open spec fn weighed(
    sem: Meaning,
    values: (Single, Single, Single),
    weights: (Single, Single, Single),
) -> Single {
    plus(
        sem,
        plus(sem, times(sem, values.0, weights.0), times(sem, values.1, weights.1)),
        times(sem, values.2, weights.2),
    )
}

/// How much each corner of a triangle counts at the middle of the pixel at `x`, `y`;
/// `None` where that lies outside the triangle.
pub open spec fn weights(sem: Meaning, t: Triangle, x: u64, y: u64) -> Option<
    (Single, Single, Single),
> {
    let half = Single { bits: HALF };
    let p = (plus(sem, whole(sem, x), half), plus(sem, whole(sem, y), half));
    let w0 = edge(sem, t.v1.at(), t.v2.at(), p);
    let w1 = edge(sem, t.v2.at(), t.v0.at(), p);
    let w2 = edge(sem, t.v0.at(), t.v1.at(), p);
    let zero = Single { bits: ZERO };
    if w0.ge(zero) && w1.ge(zero) && w2.ge(zero) {
        Some((over(sem, w0, t.area), over(sem, w1, t.area), over(sem, w2, t.area)))
    } else {
        None
    }
}

/// How far away the triangle is where its corners count as given.
pub open spec fn depth_at(sem: Meaning, t: Triangle, w: (Single, Single, Single)) -> Single {
    weighed(sem, w, (t.v0.z, t.v1.z, t.v2.z))
}

/// The texel that the triangle shows where its corners count as given.
pub open spec fn texel_at(
    sem: Meaning,
    t: Triangle,
    tex: ImageView,
    w: (Single, Single, Single),
) -> Rgba {
    tex.pixel(
        texel_index(sem, weighed(sem, (t.v0.u, t.v1.u, t.v2.u), w), tex.width),
        texel_index(sem, weighed(sem, (t.v0.v, t.v1.v, t.v2.v), w), tex.height),
    )
}

/// Whether a texel shows at all.
pub open spec fn is_visible(sem: Meaning, texel: Rgba) -> bool {
    (Single { bits: HUNDREDTH }).lt(opacity(sem, texel.a))
}

/// The color and the depth of the pixel at `x`, `y` once the triangle is drawn.
pub open spec fn plotted(
    sem: Meaning,
    t: Triangle,
    tex: ImageView,
    x: u64,
    y: u64,
    color: u32,
    depth: Single,
) -> (u32, Single) {
    match weights(sem, t, x, y) {
        None => (color, depth),
        Some(w) => {
            let z = depth_at(sem, t, w);
            let texel = texel_at(sem, t, tex, w);
            if z.lt(depth) && is_visible(sem, texel) {
                (
                    packed(composed(sem, texel, t.v0.brightness, color)),
                    if texel.a == 255 {
                        z
                    } else {
                        depth
                    },
                )
            } else {
                (color, depth)
            }
        },
    }
}

/// The color and the depth of pixel `i` of a canvas once a triangle is drawn.
pub open spec fn plotted_cell(
    sem: Meaning,
    t: Triangle,
    tex: ImageView,
    w: nat,
    h: nat,
    before: Canvas,
    i: int,
) -> (u32, Single) {
    let (x, y) = (i % w as int, i / w as int);
    if i < w * h && t.reaches(w, h, x, y) {
        plotted(sem, t, tex, x as u64, y as u64, before.colors[i], before.depths[i])
    } else {
        (before.colors[i], before.depths[i])
    }
}

/// A canvas that is `w` wide and `h` high once a triangle is drawn on it.
pub open spec fn drawn(
    sem: Meaning,
    before: Canvas,
    w: nat,
    h: nat,
    v0: Vertex,
    v1: Vertex,
    v2: Vertex,
    tex: ImageView,
) -> Canvas {
    match oriented(sem, v0, v1, v2) {
        Some(t) if w > 0 && h > 0 => Canvas {
            colors: Seq::new(
                before.colors.len(),
                |i: int| plotted_cell(sem, t, tex, w, h, before, i).0,
            ),
            depths: Seq::new(
                before.depths.len(),
                |i: int| plotted_cell(sem, t, tex, w, h, before, i).1,
            ),
        },
        _ => before,
    }
}

/// The four channels of a color.
pub fn unpack(color: u32) -> (r: Rgba)
    ensures
        r == unpacked(color),
{
    Rgba {
        r: (color / 0x1_0000 % 0x100) as u8,
        g: (color / 0x100 % 0x100) as u8,
        b: (color % 0x100) as u8,
        a: (color / 0x100_0000) as u8,
    }
}

/// The color with the given channels.
pub fn pack(p: Rgba) -> (r: u32)
    ensures
        r == packed(p),
{
    p.a as u32 * 0x100_0000 + p.r as u32 * 0x1_0000 + p.g as u32 * 0x100 + p.b as u32
}

fn compute_edge<F: Fn(Operation) -> Single>(
    arith: &F,
    a: (Single, Single),
    b: (Single, Single),
    c: (Single, Single),
) -> (r: Single)
    requires
        accepts_all(*arith),
    ensures
        forall|sem: Meaning| #[trigger] means(*arith, sem) ==> r == edge(sem, a, b, c),
{
    let cx = subtract_singles(arith, c.0, a.0);
    let by = subtract_singles(arith, b.1, a.1);
    let first = multiply_singles(arith, cx, by);
    let cy = subtract_singles(arith, c.1, a.1);
    let bx = subtract_singles(arith, b.0, a.0);
    let second = multiply_singles(arith, cy, bx);
    subtract_singles(arith, first, second)
}

fn weigh<F: Fn(Operation) -> Single>(
    arith: &F,
    values: (Single, Single, Single),
    weights: (Single, Single, Single),
) -> (r: Single)
    requires
        accepts_all(*arith),
    ensures
        forall|sem: Meaning| #[trigger] means(*arith, sem) ==> r == weighed(sem, values, weights),
{
    let a = multiply_singles(arith, values.0, weights.0);
    let b = multiply_singles(arith, values.1, weights.1);
    let c = multiply_singles(arith, values.2, weights.2);
    let both = add_singles(arith, a, b);
    add_singles(arith, both, c)
}

/// The alpha channel as a part of one.
pub fn compute_opacity<F: Fn(Operation) -> Single>(arith: &F, a: u8) -> (r: Single)
    requires
        accepts_all(*arith),
    ensures
        forall|sem: Meaning| #[trigger] means(*arith, sem) ==> r == opacity(sem, a),
{
    let n = convert_whole(arith, a as u64);
    divide_singles(arith, n, Single { bits: TWO_HUNDRED_FIFTY_FIVE })
}

fn layer<F: Fn(Operation) -> Single>(
    arith: &F,
    src: Single,
    src_a: Single,
    dst: Single,
    dst_a: Single,
    out_a: Single,
) -> (r: Single)
    requires
        accepts_all(*arith),
    ensures
        forall|sem: Meaning| #[trigger]
            means(*arith, sem) ==> r == layered(sem, src, src_a, dst, dst_a, out_a),
{
    let above = multiply_singles(arith, src, src_a);
    let weight = multiply_singles(arith, dst, dst_a);
    let left = subtract_singles(arith, Single { bits: ONE }, src_a);
    let below = multiply_singles(arith, weight, left);
    let sum = add_singles(arith, above, below);
    divide_singles(arith, sum, out_a)
}

/// A texel, as bright as given, over a color of the canvas.
fn compose<F: Fn(Operation) -> Single>(
    arith: &F,
    texel: Rgba,
    brightness: Single,
    under: u32,
) -> (r: Rgba)
    requires
        accepts_all(*arith),
    ensures
        forall|sem: Meaning| #[trigger]
            means(*arith, sem) ==> r == composed(sem, texel, brightness, under),
{
    let below = unpack(under);
    let src_a = compute_opacity(arith, texel.a);
    let lit_r = convert_whole(arith, texel.r as u64);
    let lit_g = convert_whole(arith, texel.g as u64);
    let lit_b = convert_whole(arith, texel.b as u64);
    let src_r = multiply_singles(arith, lit_r, brightness);
    let src_g = multiply_singles(arith, lit_g, brightness);
    let src_b = multiply_singles(arith, lit_b, brightness);
    let dst_a = compute_opacity(arith, below.a);
    let dst_r = convert_whole(arith, below.r as u64);
    let dst_g = convert_whole(arith, below.g as u64);
    let dst_b = convert_whole(arith, below.b as u64);
    let left = subtract_singles(arith, Single { bits: ONE }, src_a);
    let rest = multiply_singles(arith, dst_a, left);
    let out_a = add_singles(arith, src_a, rest);
    let zero = Single { bits: ZERO };
    let (out_r, out_g, out_b) = if zero.less(out_a) {
        (
            layer(arith, src_r, src_a, dst_r, dst_a, out_a),
            layer(arith, src_g, src_a, dst_g, dst_a, out_a),
            layer(arith, src_b, src_a, dst_b, dst_a, out_a),
        )
    } else {
        (zero, zero, zero)
    };
    let scaled_a = multiply_singles(arith, out_a, Single { bits: TWO_HUNDRED_FIFTY_FIVE });
    Rgba {
        r: out_r.truncate(255) as u8,
        g: out_g.truncate(255) as u8,
        b: out_b.truncate(255) as u8,
        a: (scaled_a.truncate(u32::MAX as u64) % 0x100) as u8,
    }
}

fn find_texel<F: Fn(Operation) -> Single>(arith: &F, part: Single, size: u32) -> (r: u32)
    requires
        accepts_all(*arith),
        size > 0,
    ensures
        r < size,
        forall|sem: Meaning| #[trigger]
            means(*arith, sem) ==> r == texel_index(sem, part, size as nat),
{
    let n = convert_whole(arith, size as u64);
    let reached = multiply_singles(arith, part, n).truncate(u32::MAX as u64) as u32;
    if reached < size {
        reached
    } else {
        size - 1
    }
}

/// The color and the depth of the pixel at `x`, `y` once the triangle is drawn.
fn plot<F: Fn(Operation) -> Single>(
    arith: &F,
    t: &Triangle,
    tex: &RgbaImage,
    x: u64,
    y: u64,
    color: u32,
    depth: Single,
) -> (r: (u32, Single))
    requires
        accepts_all(*arith),
        tex@.width > 0,
        tex@.height > 0,
    ensures
        forall|sem: Meaning| #[trigger]
            means(*arith, sem) ==> r == plotted(sem, *t, tex@, x, y, color, depth),
{
    let half = Single { bits: HALF };
    let zero = Single { bits: ZERO };
    let left = convert_whole(arith, x);
    let top = convert_whole(arith, y);
    let p = (add_singles(arith, left, half), add_singles(arith, top, half));
    let p0 = (t.v0.x, t.v0.y);
    let p1 = (t.v1.x, t.v1.y);
    let p2 = (t.v2.x, t.v2.y);
    let w0 = compute_edge(arith, p1, p2, p);
    let w1 = compute_edge(arith, p2, p0, p);
    let w2 = compute_edge(arith, p0, p1, p);
    if !(w0.at_least(zero) && w1.at_least(zero) && w2.at_least(zero)) {
        return (color, depth);
    }
    let w = (
        divide_singles(arith, w0, t.area),
        divide_singles(arith, w1, t.area),
        divide_singles(arith, w2, t.area),
    );
    let z = weigh(arith, w, (t.v0.z, t.v1.z, t.v2.z));
    if !z.less(depth) {
        return (color, depth);
    }
    let u = weigh(arith, (t.v0.u, t.v1.u, t.v2.u), w);
    let v = weigh(arith, (t.v0.v, t.v1.v, t.v2.v), w);
    let tx = find_texel(arith, u, tex.width());
    let ty = find_texel(arith, v, tex.height());
    let texel = tex.get_pixel(tx, ty);
    let src_a = compute_opacity(arith, texel.a);
    if !(Single { bits: HUNDREDTH }).less(src_a) {
        return (color, depth);
    }
    let shown = compose(arith, texel, t.v0.brightness, color);
    (
        pack(shown),
        if texel.a == 255 {
            z
        } else {
            depth
        },
    )
}

/// The triangle with the given corners; `None` where it has next to no area.
fn orient<F: Fn(Operation) -> Single>(arith: &F, v0: Vertex, v1: Vertex, v2: Vertex) -> (r: Option<
    Triangle,
>)
    requires
        accepts_all(*arith),
    ensures
        forall|sem: Meaning| #[trigger] means(*arith, sem) ==> r == oriented(sem, v0, v1, v2),
{
    let area = compute_edge(arith, (v0.x, v0.y), (v1.x, v1.y), (v2.x, v2.y));
    if area.abs().less(Single { bits: HUNDRED_THOUSANDTH }) {
        None
    } else if area.less(Single { bits: ZERO }) {
        Some(Triangle { v0, v1: v2, v2: v1, area: area.neg() })
    } else {
        Some(Triangle { v0, v1, v2, area })
    }
}

fn find_lowest(a: Single, b: Single, c: Single, size: usize) -> (r: usize)
    requires
        size > 0,
    ensures
        r < size,
        r == lowest(a, b, c, size as nat),
{
    a.min(b).min(c).max(Single { bits: ZERO }).truncate((size - 1) as u64) as usize
}

fn find_highest(a: Single, b: Single, c: Single, size: usize) -> (r: usize)
    requires
        size > 0,
    ensures
        r < size,
        r == highest(a, b, c, size as nat),
{
    a.max(b).max(c).max(Single { bits: ZERO }).truncate((size - 1) as u64) as usize
}

/// The pixel at `x`, `y` is the one with number `y * w + x`.
pub proof fn lemma_cell(w: int, h: int, x: int, y: int)
    requires
        0 <= x < w,
        0 <= y < h,
    ensures
        0 <= y * w,
        0 <= y * w + x < w * h,
        (y * w + x) % w == x,
        (y * w + x) / w == y,
{
    assert(0 <= y * w && y * w + w <= w * h) by (nonlinear_arith)
        requires
            0 <= x < w,
            0 <= y < h,
    ;
    assert(y * w == w * y) by (nonlinear_arith);
    vstd::arithmetic::div_mod::lemma_fundamental_div_mod_converse(y * w + x, w, y, x);
}

/// The pixel with number `i` is the one at `i % w`, `i / w`.
pub proof fn lemma_cell_number(w: int, i: int)
    requires
        w > 0,
        0 <= i,
    ensures
        i == (i / w) * w + i % w,
        0 <= i % w < w,
        0 <= i / w,
{
    vstd::arithmetic::div_mod::lemma_fundamental_div_mod(i, w);
    assert((i / w) * w == w * (i / w)) by (nonlinear_arith);
    vstd::arithmetic::div_mod::lemma_div_pos_is_pos(i, w);
}

/// A triangle that is being drawn on a canvas of a given size.
struct Job {
    sem: Meaning,
    t: Triangle,
    tex: ImageView,
    w: nat,
    h: nat,
    before: Canvas,
}

impl Job {
    /// What pixel `i` is to become.
    spec fn goal(self, i: int) -> (u32, Single) {
        plotted_cell(self.sem, self.t, self.tex, self.w, self.h, self.before, i)
    }

    /// What pixel `i` is once the pixels before the one at `x`, `y` are drawn.
    spec fn state(self, i: int, x: int, y: int) -> (u32, Single) {
        let (column, row) = (i % (self.w as int), i / (self.w as int));
        if row < y || row == y && column < x {
            self.goal(i)
        } else {
            (self.before.colors[i], self.before.depths[i])
        }
    }

    /// Whether `now` is the canvas once the pixels before the one at `x`, `y` are drawn.
    spec fn reached(self, now: Canvas, x: int, y: int) -> bool {
        &&& now.colors.len() == self.before.colors.len()
        &&& now.depths.len() == self.before.depths.len()
        &&& forall|i: int|
            0 <= i < now.colors.len() ==> #[trigger] now.colors[i] == self.state(i, x, y).0
        &&& forall|i: int|
            0 <= i < now.depths.len() ==> #[trigger] now.depths[i] == self.state(i, x, y).1
    }

    spec fn fits(self) -> bool {
        &&& self.w > 0
        &&& self.w * self.h <= self.before.colors.len()
        &&& self.w * self.h <= self.before.depths.len()
    }

    /// Two states that agree on the pixels in the box are the same.
    proof fn lemma_same_state(self, now: Canvas, x: int, y: int, x2: int, y2: int)
        requires
            self.fits(),
            self.reached(now, x, y),
            forall|i: int, j: int|
                0 <= i < self.w && self.t.reaches(self.w, self.h, i, j) ==> ((j < y || j == y && i
                    < x) <==> (j < y2 || j == y2 && i < x2)),
        ensures
            self.reached(now, x2, y2),
    {
        assert forall|i: int| 0 <= i implies #[trigger] self.state(i, x, y) == self.state(
            i,
            x2,
            y2,
        ) by {
            lemma_cell_number(self.w as int, i);
        }
        assert forall|i: int| 0 <= i < now.colors.len() implies #[trigger] now.colors[i]
            == self.state(i, x2, y2).0 by {
            assert(self.state(i, x, y) == self.state(i, x2, y2));
        }
        assert forall|i: int| 0 <= i < now.depths.len() implies #[trigger] now.depths[i]
            == self.state(i, x2, y2).1 by {
            assert(self.state(i, x, y) == self.state(i, x2, y2));
        }
    }

    /// Drawing one pixel leads to the next.
    proof fn lemma_draw_one(self, now: Canvas, x: int, y: int, color: u32, depth: Single)
        requires
            self.fits(),
            self.reached(now, x, y),
            0 <= x < self.w,
            0 <= y < self.h,
            self.t.reaches(self.w, self.h, x, y),
            (color, depth) == plotted(
                self.sem,
                self.t,
                self.tex,
                x as u64,
                y as u64,
                now.colors[y * self.w + x],
                now.depths[y * self.w + x],
            ),
        ensures
            self.reached(
                Canvas {
                    colors: now.colors.update(y * self.w + x, color),
                    depths: now.depths.update(y * self.w + x, depth),
                },
                x + 1,
                y,
            ),
    {
        let w = self.w as int;
        let at = y * w + x;
        lemma_cell(w, self.h as int, x, y);
        assert(now.colors[at] == self.state(at, x, y).0);
        assert(now.depths[at] == self.state(at, x, y).1);
        assert((color, depth) == self.goal(at));
        assert forall|i: int| 0 <= i && i != at implies #[trigger] self.state(i, x, y)
            == self.state(i, x + 1, y) by {
            lemma_cell_number(w, i);
        }
        let next = Canvas {
            colors: now.colors.update(at, color),
            depths: now.depths.update(at, depth),
        };
        assert forall|i: int| 0 <= i < next.colors.len() implies #[trigger] next.colors[i]
            == self.state(i, x + 1, y).0 by {
            if i != at {
                assert(now.colors[i] == self.state(i, x, y).0);
            }
        }
        assert forall|i: int| 0 <= i < next.depths.len() implies #[trigger] next.depths[i]
            == self.state(i, x + 1, y).1 by {
            if i != at {
                assert(now.depths[i] == self.state(i, x, y).1);
            }
        }
    }

    /// Once all pixels are drawn, the canvas is as it is to become.
    proof fn lemma_all_drawn(self, now: Canvas, y: int)
        requires
            self.fits(),
            self.h > 0,
            self.reached(now, 0, y),
            forall|i: int, j: int| self.t.reaches(self.w, self.h, i, j) ==> j < y,
        ensures
            now.colors == Seq::new(self.before.colors.len(), |i: int| self.goal(i).0),
            now.depths == Seq::new(self.before.depths.len(), |i: int| self.goal(i).1),
    {
        assert forall|i: int| 0 <= i implies #[trigger] self.state(i, 0, y) == self.goal(i) by {
        }
        assert(now.colors =~= Seq::new(self.before.colors.len(), |i: int| self.goal(i).0));
        assert(now.depths =~= Seq::new(self.before.depths.len(), |i: int| self.goal(i).1));
    }
}

/// Draws a textured triangle on a canvas that is `w` wide and `h` high, with
/// the colors `fb` and the depths `zb`: where it is nearer than what is there, it
/// is laid over it, and where its texel is opaque, it hides what is farther away. A triangle
/// with next to no area is not drawn, whatever the canvas and the texture are.
pub fn draw_triangle<F: Fn(Operation) -> Single>(
    fb: &mut Vec<u32>,
    zb: &mut Vec<Single>,
    w: usize,
    h: usize,
    v0: Vertex,
    v1: Vertex,
    v2: Vertex,
    tex: &RgbaImage,
    arith: &F,
)
    requires
        accepts_all(*arith),
        has_no_area(*arith, v0, v1, v2) || {
            &&& w * h <= old(fb)@.len()
            &&& w * h <= old(zb)@.len()
            &&& tex@.width > 0
            &&& tex@.height > 0
        },
    ensures
        final(fb)@.len() == old(fb)@.len(),
        final(zb)@.len() == old(zb)@.len(),
        forall|sem: Meaning| #[trigger]
            means(*arith, sem) ==> (Canvas { colors: final(fb)@, depths: final(zb)@ }) == drawn(
                sem,
                Canvas { colors: old(fb)@, depths: old(zb)@ },
                w as nat,
                h as nat,
                v0,
                v1,
                v2,
                tex@,
            ),
{
    let t = match orient(arith, v0, v1, v2) {
        Some(t) => t,
        None => return,
    };
    proof {
        if has_no_area(*arith, v0, v1, v2) {
            let sem = choose|sem: Meaning| #[trigger]
                means(*arith, sem) && oriented(sem, v0, v1, v2) is None;
            assert(Some(t) == oriented(sem, v0, v1, v2));
        }
    }
    if w == 0 || h == 0 {
        return;
    }
    let min_x = find_lowest(t.v0.x, t.v1.x, t.v2.x, w);
    let max_x = find_highest(t.v0.x, t.v1.x, t.v2.x, w);
    let min_y = find_lowest(t.v0.y, t.v1.y, t.v2.y, h);
    let max_y = find_highest(t.v0.y, t.v1.y, t.v2.y, h);
    let ghost before = Canvas { colors: fb@, depths: zb@ };
    let ghost job = |sem: Meaning|
        Job { sem, t, tex: tex@, w: w as nat, h: h as nat, before };
    let mut y: usize = min_y;
    proof {
        assert(fb.len() <= usize::MAX && zb.len() <= usize::MAX);
        assert forall|sem: Meaning| #[trigger] means(*arith, sem) implies job(sem).reached(
            before,
            0,
            min_y as int,
        ) by {
            assert(job(sem).reached(before, 0, 0));
            job(sem).lemma_same_state(before, 0, 0, 0, min_y as int);
        }
    }
    while y <= max_y
        invariant
            accepts_all(*arith),
            tex@.width > 0,
            tex@.height > 0,
            job == (|sem: Meaning|
                Job { sem, t, tex: tex@, w: w as nat, h: h as nat, before }),
            0 < w,
            0 < h,
            max_x < w,
            max_y < h,
            min_y <= y,
            y <= max_y + 1 || y == min_y,
            min_x == lowest(t.v0.x, t.v1.x, t.v2.x, w as nat),
            max_x == highest(t.v0.x, t.v1.x, t.v2.x, w as nat),
            min_y == lowest(t.v0.y, t.v1.y, t.v2.y, h as nat),
            max_y == highest(t.v0.y, t.v1.y, t.v2.y, h as nat),
            w * h <= before.colors.len() <= usize::MAX,
            w * h <= before.depths.len() <= usize::MAX,
            fb@.len() == before.colors.len(),
            zb@.len() == before.depths.len(),
            forall|sem: Meaning| #[trigger]
                means(*arith, sem) ==> job(sem).reached(
                    Canvas { colors: fb@, depths: zb@ },
                    0,
                    y as int,
                ),
        decreases max_y + 1 - y,
    {
        let mut x: usize = min_x;
        proof {
            let now = Canvas { colors: fb@, depths: zb@ };
            assert forall|sem: Meaning| #[trigger] means(*arith, sem) implies job(sem).reached(
                now,
                min_x as int,
                y as int,
            ) by {
                job(sem).lemma_same_state(now, 0, y as int, min_x as int, y as int);
            }
        }
        while x <= max_x
            invariant
                accepts_all(*arith),
                tex@.width > 0,
                tex@.height > 0,
                job == (|sem: Meaning|
                    Job { sem, t, tex: tex@, w: w as nat, h: h as nat, before }),
                0 < w,
                0 < h,
                max_x < w,
                max_y < h,
                min_y <= y <= max_y,
                min_x <= x,
                x <= max_x + 1 || x == min_x,
                min_x == lowest(t.v0.x, t.v1.x, t.v2.x, w as nat),
                max_x == highest(t.v0.x, t.v1.x, t.v2.x, w as nat),
                min_y == lowest(t.v0.y, t.v1.y, t.v2.y, h as nat),
                max_y == highest(t.v0.y, t.v1.y, t.v2.y, h as nat),
                w * h <= before.colors.len() <= usize::MAX,
                w * h <= before.depths.len() <= usize::MAX,
                fb@.len() == before.colors.len(),
                zb@.len() == before.depths.len(),
                forall|sem: Meaning| #[trigger]
                    means(*arith, sem) ==> job(sem).reached(
                        Canvas { colors: fb@, depths: zb@ },
                        x as int,
                        y as int,
                    ),
            decreases max_x + 1 - x,
        {
            proof {
                lemma_cell(w as int, h as int, x as int, y as int);
            }
            let idx: usize = y * w + x;
            let ghost now = Canvas { colors: fb@, depths: zb@ };
            let (color, depth) = plot(arith, &t, tex, x as u64, y as u64, fb[idx], zb[idx]);
            fb.set(idx, color);
            zb.set(idx, depth);
            proof {
                assert forall|sem: Meaning| #[trigger] means(*arith, sem) implies job(sem).reached(
                    Canvas { colors: fb@, depths: zb@ },
                    x + 1,
                    y as int,
                ) by {
                    job(sem).lemma_draw_one(now, x as int, y as int, color, depth);
                }
            }
            x += 1;
        }
        proof {
            let now = Canvas { colors: fb@, depths: zb@ };
            assert forall|sem: Meaning| #[trigger] means(*arith, sem) implies job(sem).reached(
                now,
                0,
                y + 1,
            ) by {
                job(sem).lemma_same_state(now, x as int, y as int, 0, y + 1);
            }
        }
        y += 1;
    }
    proof {
        let now = Canvas { colors: fb@, depths: zb@ };
        assert forall|sem: Meaning| #[trigger] means(*arith, sem) implies now == drawn(
            sem,
            before,
            w as nat,
            h as nat,
            v0,
            v1,
            v2,
            tex@,
        ) by {
            job(sem).lemma_all_drawn(now, y as int);
            let goal = drawn(sem, before, w as nat, h as nat, v0, v1, v2, tex@);
            assert(now.colors =~= goal.colors);
            assert(now.depths =~= goal.depths);
        }
    }
}

/// A color is given back by its channels, and channels by their color.
pub proof fn law_packing_loses_nothing(p: Rgba, color: u32)
    ensures
        unpacked(packed(p)) == p,
        packed(unpacked(color)) == color,
{
    let (r, g, b, a) = (p.r, p.g, p.b, p.a);
    let c = packed(p);
    assert(c == a * 0x100_0000 + r * 0x1_0000 + g * 0x100 + b);
    assert(c / 0x1_0000 % 0x100 == r && c / 0x100 % 0x100 == g && c % 0x100 == b && c / 0x100_0000
        == a) by (bit_vector)
        requires
            c == a * 0x100_0000 + r * 0x1_0000 + g * 0x100 + b,
    ;
    assert((color / 0x100_0000) * 0x100_0000 + (color / 0x1_0000 % 0x100) * 0x1_0000 + (color
        / 0x100 % 0x100) * 0x100 + color % 0x100 == color) by (bit_vector);
}

/// Drawing a triangle leaves a pixel as it is where the pixel lies outside the
/// box round the triangle.
pub proof fn law_outside_the_box_nothing_changes(
    sem: Meaning,
    before: Canvas,
    w: nat,
    h: nat,
    v0: Vertex,
    v1: Vertex,
    v2: Vertex,
    tex: ImageView,
    i: int,
)
    requires
        0 <= i < before.colors.len(),
        i < before.depths.len(),
        oriented(sem, v0, v1, v2) matches Some(t) ==> !t.reaches(w, h, i % w as int, i / w as int),
    ensures
        drawn(sem, before, w, h, v0, v1, v2, tex).colors[i] == before.colors[i],
        drawn(sem, before, w, h, v0, v1, v2, tex).depths[i] == before.depths[i],
{
}

/// Drawing a triangle brings a pixel nearer or leaves its depth as it is, and it
/// changes the color only of a pixel than which the triangle is nearer there.
pub proof fn law_nearer_wins(
    sem: Meaning,
    before: Canvas,
    w: nat,
    h: nat,
    v0: Vertex,
    v1: Vertex,
    v2: Vertex,
    tex: ImageView,
    i: int,
)
    requires
        0 <= i < before.colors.len(),
        i < before.depths.len(),
    ensures
        ({
            let after = drawn(sem, before, w, h, v0, v1, v2, tex);
            let nearer = |t: Triangle|
                match weights(sem, t, (i % w as int) as u64, (i / w as int) as u64) {
                    Some(at) => depth_at(sem, t, at).lt(before.depths[i]),
                    None => false,
                };
            &&& after.depths[i] == before.depths[i] || after.depths[i].lt(before.depths[i])
            &&& after.colors[i] != before.colors[i] || after.depths[i] != before.depths[i] ==> match
                oriented(sem, v0, v1, v2) {
                Some(t) => nearer(t),
                None => false,
            }
        }),
{
}

/// What is drawn of a triangle whose texel there is opaque hides what comes
/// after it at the same depth or farther away.
pub proof fn law_opaque_hides(
    sem: Meaning,
    t: Triangle,
    tex: ImageView,
    later: Triangle,
    later_tex: ImageView,
    x: u64,
    y: u64,
    color: u32,
    depth: Single,
)
    requires
        weights(sem, t, x, y) matches Some(at) && depth_at(sem, t, at).lt(depth) && texel_at(
            sem,
            t,
            tex,
            at,
        ).a == 255 && is_visible(sem, texel_at(sem, t, tex, at)) && (weights(sem, later, x, y) matches Some(
            at_later,
        ) ==> !depth_at(sem, later, at_later).lt(depth_at(sem, t, at))),
    ensures
        ({
            let first = plotted(sem, t, tex, x, y, color, depth);
            plotted(sem, later, later_tex, x, y, first.0, first.1) == first
        }),
{
}

/// A triangle with its texture.
pub struct Piece {
    pub v0: Vertex,
    pub v1: Vertex,
    pub v2: Vertex,
    pub tex: ImageView,
}

/// A canvas that is `w` wide and `h` high once a piece is drawn on it.
pub open spec fn piece_drawn(sem: Meaning, before: Canvas, w: nat, h: nat, p: Piece) -> Canvas {
    drawn(sem, before, w, h, p.v0, p.v1, p.v2, p.tex)
}

/// Whether a canvas has a color and a depth for each pixel.
pub open spec fn is_whole(canvas: Canvas, w: nat, h: nat) -> bool {
    w * h <= canvas.colors.len() && w * h <= canvas.depths.len()
}

/// Whether an image has pixels, each of which is opaque or does not show at all.
pub open spec fn is_cut_out(sem: Meaning, tex: ImageView) -> bool {
    &&& tex.width > 0
    &&& tex.height > 0
    &&& forall|x: int, y: int|
        tex.has(x, y) ==> (#[trigger] tex.pixel(x, y)).a == 255 || !is_visible(
            sem,
            tex.pixel(x, y),
        )
}

/// Whether full opacity is one, nothing is left of one when one is taken away, and nothing
/// counts for nothing.
pub open spec fn opaque_is_exact(sem: Meaning) -> bool {
    let zero = Single { bits: ZERO };
    let one = Single { bits: ONE };
    &&& opacity(sem, 255) == one
    &&& minus(sem, one, one) == zero
    &&& forall|a: u8| times(sem, #[trigger] opacity(sem, a), zero) == zero
    &&& forall|c: u8, a: u8|
        times(sem, #[trigger] times(sem, whole(sem, c as u64), opacity(sem, a)), zero) == zero
}

/// How far away a piece is at the pixel at `x`, `y`; `None` where it does not cover it.
pub open spec fn piece_depth(sem: Meaning, w: nat, h: nat, p: Piece, x: int, y: int) -> Option<
    Single,
> {
    match oriented(sem, p.v0, p.v1, p.v2) {
        Some(t) if t.reaches(w, h, x, y) => match weights(sem, t, x as u64, y as u64) {
            Some(at) => Some(depth_at(sem, t, at)),
            None => None,
        },
        _ => None,
    }
}

/// Whether the two are numbers, and the same.
pub open spec fn is_same_depth(a: Single, b: Single) -> bool {
    !a.is_nan() && !b.is_nan() && a.value() == b.value()
}

/// Whether two pieces are not at the same depth at any pixel that both cover.
pub open spec fn are_apart(sem: Meaning, w: nat, h: nat, p: Piece, q: Piece) -> bool {
    forall|x: int, y: int|
        #![trigger piece_depth(sem, w, h, p, x, y)]
        #![trigger piece_depth(sem, w, h, q, x, y)]
        0 <= x < w && 0 <= y < h ==> match (
            piece_depth(sem, w, h, p, x, y),
            piece_depth(sem, w, h, q, x, y),
        ) {
            (Some(a), Some(b)) => !is_same_depth(a, b),
            _ => true,
        }
}

/// What the pixel with number `i` is once a piece is drawn.
spec fn cell_drawn(sem: Meaning, w: nat, h: nat, p: Piece, i: int, before: (u32, Single)) -> (
    u32,
    Single,
) {
    let (x, y) = (i % w as int, i / w as int);
    match oriented(sem, p.v0, p.v1, p.v2) {
        Some(t) if 0 <= i < w * h && t.reaches(w, h, x, y) => plotted(
            sem,
            t,
            p.tex,
            x as u64,
            y as u64,
            before.0,
            before.1,
        ),
        _ => before,
    }
}

/// The texel that is shown is one of the texture, so it is opaque or does not show.
proof fn lemma_texel_is_cut_out(
    sem: Meaning,
    t: Triangle,
    tex: ImageView,
    at: (Single, Single, Single),
)
    requires
        is_cut_out(sem, tex),
    ensures
        texel_at(sem, t, tex, at).a == 255 || !is_visible(sem, texel_at(sem, t, tex, at)),
{
    let x = texel_index(sem, weighed(sem, (t.v0.u, t.v1.u, t.v2.u), at), tex.width);
    let y = texel_index(sem, weighed(sem, (t.v0.v, t.v1.v, t.v2.v), at), tex.height);
    assert(tex.has(x, y));
}

/// What is under an opaque texel does not show.
proof fn lemma_opaque_covers(sem: Meaning, texel: Rgba, brightness: Single, a: u32, b: u32)
    requires
        opaque_is_exact(sem),
        texel.a == 255,
    ensures
        composed(sem, texel, brightness, a) == composed(sem, texel, brightness, b),
{
    let zero = Single { bits: ZERO };
    let (p, q) = (unpacked(a), unpacked(b));
    assert(times(sem, opacity(sem, p.a), zero) == zero);
    assert(times(sem, opacity(sem, q.a), zero) == zero);
    let faded = |c: u8, alpha: u8|
        times(sem, times(sem, whole(sem, c as u64), opacity(sem, alpha)), zero);
    assert(faded(p.r, p.a) == zero && faded(p.g, p.a) == zero && faded(p.b, p.a) == zero);
    assert(faded(q.r, q.a) == zero && faded(q.g, q.a) == zero && faded(q.b, q.a) == zero);
}

/// Pieces that are opaque where they show can be drawn on a pixel in either order.
proof fn lemma_cells_swap(
    sem: Meaning,
    w: nat,
    h: nat,
    p: Piece,
    q: Piece,
    i: int,
    before: (u32, Single),
)
    requires
        opaque_is_exact(sem),
        is_cut_out(sem, p.tex),
        is_cut_out(sem, q.tex),
        are_apart(sem, w, h, p, q),
    ensures
        cell_drawn(sem, w, h, q, i, cell_drawn(sem, w, h, p, i, before)) == cell_drawn(
            sem,
            w,
            h,
            p,
            i,
            cell_drawn(sem, w, h, q, i, before),
        ),
{
    if 0 <= i < w * h {
        let (x, y) = (i % w as int, i / w as int);
        assert(w > 0) by (nonlinear_arith)
            requires
                w >= 0,
                0 <= i < w * h,
        ;
        lemma_cell_number(w as int, i);
        assert(y < h) by (nonlinear_arith)
            requires
                i == y * w + x,
                0 <= x,
                i < w * h,
                w > 0,
        ;
        let first = cell_drawn(sem, w, h, p, i, before);
        let second = cell_drawn(sem, w, h, q, i, before);
        if let (Some(a), Some(b)) = (
            piece_depth(sem, w, h, p, x, y),
            piece_depth(sem, w, h, q, x, y),
        ) {
            let t = oriented(sem, p.v0, p.v1, p.v2).unwrap();
            let u = oriented(sem, q.v0, q.v1, q.v2).unwrap();
            let at_t = weights(sem, t, x as u64, y as u64).unwrap();
            let at_u = weights(sem, u, x as u64, y as u64).unwrap();
            lemma_texel_is_cut_out(sem, t, p.tex, at_t);
            lemma_texel_is_cut_out(sem, u, q.tex, at_u);
            let texel_t = texel_at(sem, t, p.tex, at_t);
            let texel_u = texel_at(sem, u, q.tex, at_u);
            if texel_t.a == 255 {
                lemma_opaque_covers(sem, texel_t, t.v0.brightness, before.0, second.0);
            }
            if texel_u.a == 255 {
                lemma_opaque_covers(sem, texel_u, u.v0.brightness, before.0, first.0);
            }
        }
    }
}

/// A drawn canvas, pixel by pixel.
proof fn lemma_cells_drawn(sem: Meaning, before: Canvas, w: nat, h: nat, p: Piece)
    requires
        is_whole(before, w, h),
    ensures
        ({
            let after = piece_drawn(sem, before, w, h, p);
            &&& after.colors.len() == before.colors.len()
            &&& after.depths.len() == before.depths.len()
            &&& forall|i: int|
                0 <= i < w * h ==> (#[trigger] after.colors[i], after.depths[i]) == cell_drawn(
                    sem,
                    w,
                    h,
                    p,
                    i,
                    (before.colors[i], before.depths[i]),
                )
            &&& forall|i: int|
                w * h <= i < before.colors.len() ==> #[trigger] after.colors[i] == before.colors[i]
            &&& forall|i: int|
                w * h <= i < before.depths.len() ==> #[trigger] after.depths[i] == before.depths[i]
        }),
{
    let after = piece_drawn(sem, before, w, h, p);
    assert forall|i: int| 0 <= i < w * h implies (#[trigger] after.colors[i], after.depths[i])
        == cell_drawn(sem, w, h, p, i, (before.colors[i], before.depths[i])) by {
        assert(w > 0 && h > 0) by (nonlinear_arith)
            requires
                w >= 0,
                h >= 0,
                0 <= i < w * h,
        ;
    }
    assert(0 <= w * h) by (nonlinear_arith)
        requires
            w >= 0,
            h >= 0,
    ;
}

/// Whether a texel does not show where its alpha is at most 2, which is less than a hundredth.
pub open spec fn faint_is_hidden(sem: Meaning) -> bool {
    forall|a: u8| a <= 2 ==> !(Single { bits: HUNDREDTH }).lt(#[trigger] opacity(sem, a))
}

/// An image whose pixels have full alpha, or an alpha of at most 2, is opaque where it shows.
pub proof fn law_faint_or_opaque_is_cut_out(sem: Meaning, tex: ImageView)
    requires
        faint_is_hidden(sem),
        tex.width > 0,
        tex.height > 0,
        forall|x: int, y: int|
            tex.has(x, y) ==> (#[trigger] tex.pixel(x, y)).a == 255 || tex.pixel(x, y).a <= 2,
    ensures
        is_cut_out(sem, tex),
{
}

/// Two triangles that are opaque where they show, and that are not at the same depth at any pixel
/// that both cover, can be drawn in either order: it is the depth that decides.
pub proof fn law_either_order(sem: Meaning, before: Canvas, w: nat, h: nat, p: Piece, q: Piece)
    requires
        opaque_is_exact(sem),
        is_whole(before, w, h),
        is_cut_out(sem, p.tex),
        is_cut_out(sem, q.tex),
        are_apart(sem, w, h, p, q),
    ensures
        piece_drawn(sem, piece_drawn(sem, before, w, h, p), w, h, q) == piece_drawn(
            sem,
            piece_drawn(sem, before, w, h, q),
            w,
            h,
            p,
        ),
{
    let after_p = piece_drawn(sem, before, w, h, p);
    let after_q = piece_drawn(sem, before, w, h, q);
    let one = piece_drawn(sem, after_p, w, h, q);
    let other = piece_drawn(sem, after_q, w, h, p);
    lemma_cells_drawn(sem, before, w, h, p);
    lemma_cells_drawn(sem, before, w, h, q);
    lemma_cells_drawn(sem, after_p, w, h, q);
    lemma_cells_drawn(sem, after_q, w, h, p);
    assert forall|i: int| 0 <= i < w * h implies one.colors[i] == other.colors[i]
        && one.depths[i] == other.depths[i] by {
        lemma_cells_swap(sem, w, h, p, q, i, (before.colors[i], before.depths[i]));
        assert((after_p.colors[i], after_p.depths[i]) == cell_drawn(
            sem,
            w,
            h,
            p,
            i,
            (before.colors[i], before.depths[i]),
        ));
        assert((after_q.colors[i], after_q.depths[i]) == cell_drawn(
            sem,
            w,
            h,
            q,
            i,
            (before.colors[i], before.depths[i]),
        ));
    }
    assert forall|i: int| 0 <= i < one.colors.len() implies one.colors[i] == other.colors[i] by {
        if i >= w * h {
            assert(one.colors[i] == after_p.colors[i]);
            assert(other.colors[i] == after_q.colors[i]);
        }
    }
    assert forall|i: int| 0 <= i < one.depths.len() implies one.depths[i] == other.depths[i] by {
        if i >= w * h {
            assert(one.depths[i] == after_p.depths[i]);
            assert(other.depths[i] == after_q.depths[i]);
        }
    }
    assert(one.colors =~= other.colors);
    assert(one.depths =~= other.depths);
}

/// A triangle that is opaque where it shows changes nothing when it is drawn a second time.
pub proof fn law_twice_is_once(sem: Meaning, before: Canvas, w: nat, h: nat, p: Piece)
    requires
        is_whole(before, w, h),
        is_cut_out(sem, p.tex),
    ensures
        piece_drawn(sem, piece_drawn(sem, before, w, h, p), w, h, p) == piece_drawn(
            sem,
            before,
            w,
            h,
            p,
        ),
{
    let once = piece_drawn(sem, before, w, h, p);
    let twice = piece_drawn(sem, once, w, h, p);
    lemma_cells_drawn(sem, before, w, h, p);
    lemma_cells_drawn(sem, once, w, h, p);
    assert forall|i: int| 0 <= i < w * h implies twice.colors[i] == once.colors[i]
        && twice.depths[i] == once.depths[i] by {
        assert((once.colors[i], once.depths[i]) == cell_drawn(
            sem,
            w,
            h,
            p,
            i,
            (before.colors[i], before.depths[i]),
        ));
        assert((twice.colors[i], twice.depths[i]) == cell_drawn(
            sem,
            w,
            h,
            p,
            i,
            (once.colors[i], once.depths[i]),
        ));
        if let Some(t) = oriented(sem, p.v0, p.v1, p.v2) {
            if let Some(at) = weights(sem, t, (i % w as int) as u64, (i / w as int) as u64) {
                lemma_texel_is_cut_out(sem, t, p.tex, at);
            }
        }
    }
    assert forall|i: int| 0 <= i < twice.colors.len() implies twice.colors[i] == once.colors[i] by {
        if i >= w * h {
            assert(twice.colors[i] == once.colors[i]);
        }
    }
    assert forall|i: int| 0 <= i < twice.depths.len() implies twice.depths[i] == once.depths[i] by {
        if i >= w * h {
            assert(twice.depths[i] == once.depths[i]);
        }
    }
    assert(twice.colors =~= once.colors);
    assert(twice.depths =~= once.depths);
}

/// The area of a triangle whose corners go round the other way has the other sign, or neither has
/// one.
proof fn lemma_area_turns(sem: Meaning, v0: Vertex, v1: Vertex, v2: Vertex)
    requires
        products_commute(sem),
        differences_oppose(sem),
        nan_spreads(sem),
    ensures
        ({
            let area = edge(sem, v0.at(), v1.at(), v2.at());
            let back = edge(sem, v0.at(), v2.at(), v1.at());
            ||| area.is_nan() && back.is_nan()
            ||| !area.is_nan() && !back.is_nan() && area.value() == 0 && back.value() == 0
            ||| back == area.neg_spec()
        }),
{
    let (bx, by) = (minus(sem, v1.x, v0.x), minus(sem, v1.y, v0.y));
    let (cx, cy) = (minus(sem, v2.x, v0.x), minus(sem, v2.y, v0.y));
    let (p, q) = (times(sem, cx, by), times(sem, cy, bx));
    assert(alike(times(sem, cx, by), times(sem, by, cx)));
    assert(alike(times(sem, cy, bx), times(sem, bx, cy)));
    let area = minus(sem, p, q);
    let back = minus(sem, times(sem, bx, cy), times(sem, by, cx));
    if !p.is_nan() && !q.is_nan() {
        assert(back == minus(sem, q, p));
    }
}

/// A triangle whose area is not a number leaves each pixel as it is.
proof fn lemma_no_number_no_change(
    sem: Meaning,
    before: Canvas,
    w: nat,
    h: nat,
    v0: Vertex,
    v1: Vertex,
    v2: Vertex,
    tex: ImageView,
)
    requires
        nan_spreads(sem),
        edge(sem, v0.at(), v1.at(), v2.at()).is_nan(),
    ensures
        drawn(sem, before, w, h, v0, v1, v2, tex) == before,
{
    let after = drawn(sem, before, w, h, v0, v1, v2, tex);
    if let Some(t) = oriented(sem, v0, v1, v2) {
        assert(t.area.is_nan());
        assert forall|x: u64, y: u64, color: u32, depth: Single| #[trigger]
            plotted(sem, t, tex, x, y, color, depth) == (color, depth) by {
            if let Some(at) = weights(sem, t, x, y) {
                assert(at.0.is_nan());
                assert(times(sem, at.0, t.v0.z).is_nan());
                assert(plus(sem, times(sem, at.0, t.v0.z), times(sem, at.1, t.v1.z)).is_nan());
                assert(depth_at(sem, t, at).is_nan());
            }
        }
    }
    assert(after.colors =~= before.colors);
    assert(after.depths =~= before.depths);
}

/// Corners that go round the other way make the same triangle.
proof fn lemma_same_triangle(sem: Meaning, v0: Vertex, v1: Vertex, v2: Vertex)
    requires
        ({
            let area = edge(sem, v0.at(), v1.at(), v2.at());
            let back = edge(sem, v0.at(), v2.at(), v1.at());
            ||| !area.is_nan() && !back.is_nan() && area.value() == 0 && back.value() == 0
            ||| !area.is_nan() && back == area.neg_spec()
        }),
    ensures
        oriented(sem, v0, v1, v2) == oriented(sem, v0, v2, v1),
{
    let area = edge(sem, v0.at(), v1.at(), v2.at());
    let back = edge(sem, v0.at(), v2.at(), v1.at());
    let least = Single { bits: HUNDRED_THOUSANDTH };
    let zero = Single { bits: ZERO };
    assert(least.value() > 0) by {
        lemma_units_increase(0, HUNDRED_THOUSANDTH as nat);
    }
    assert(!least.is_nan() && !zero.is_nan() && zero.value() == 0);
    lemma_turned_sign(area);
    lemma_turned_sign(back);
}

/// What is drawn depends on the triangle alone, not on the order in which its corners are given.
proof fn lemma_same_drawing(
    sem: Meaning,
    before: Canvas,
    w: nat,
    h: nat,
    v0: Vertex,
    v1: Vertex,
    v2: Vertex,
    tex: ImageView,
)
    requires
        oriented(sem, v0, v1, v2) == oriented(sem, v0, v2, v1),
    ensures
        drawn(sem, before, w, h, v0, v1, v2, tex) == drawn(sem, before, w, h, v0, v2, v1, tex),
{
    let one = drawn(sem, before, w, h, v0, v1, v2, tex);
    let other = drawn(sem, before, w, h, v0, v2, v1, tex);
    assert(one.colors =~= other.colors);
    assert(one.depths =~= other.depths);
}

/// It does not matter which way round the corners of a triangle go: both its sides are drawn.
pub proof fn law_either_winding(
    sem: Meaning,
    before: Canvas,
    w: nat,
    h: nat,
    v0: Vertex,
    v1: Vertex,
    v2: Vertex,
    tex: ImageView,
)
    requires
        products_commute(sem),
        differences_oppose(sem),
        nan_spreads(sem),
    ensures
        drawn(sem, before, w, h, v0, v1, v2, tex) == drawn(sem, before, w, h, v0, v2, v1, tex),
{
    let area = edge(sem, v0.at(), v1.at(), v2.at());
    let back = edge(sem, v0.at(), v2.at(), v1.at());
    lemma_area_turns(sem, v0, v1, v2);
    if area.is_nan() && back.is_nan() {
        lemma_no_number_no_change(sem, before, w, h, v0, v1, v2, tex);
        lemma_no_number_no_change(sem, before, w, h, v0, v2, v1, tex);
    } else {
        lemma_same_triangle(sem, v0, v1, v2);
        lemma_same_drawing(sem, before, w, h, v0, v1, v2, tex);
    }
}

}
