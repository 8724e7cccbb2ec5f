//! That a model is placed as it says, and that the window holds all of it and no more.
use crate::arith::{minus, over, plus, times, Meaning};
use crate::ieee::ieee;
use crate::model::{DisplayTransform, ElementView};
use crate::reals::{
    is_finite, lemma_constants, lemma_difference_within, lemma_order, lemma_product_within,
    lemma_quotient_within, lemma_sum_within, size, worth,
};
use crate::render::{Point, Projected, Projection};
use crate::single::{
    lemma_units_increase, Single, FIVE_EIGHTHS, GREATEST, HALF, LEAST, SIXTEEN, THIRTY, TWO, TWO_HUNDRED_TWENTY_FIVE, ZERO,
};
use crate::view::{
    bounds_of, is_within, law_bounds_hold_every_corner, placed, seen_corner, widened_by_box,
    window_round, Bounds, Window,
};
use vstd::prelude::*;

verus! {

/// Whether two real numbers differ by no more than a millionth of `m`.
pub open spec fn is_close(x: real, y: real, m: real) -> bool {
    size(x - y) <= m / 1_000_000 as real
}

/// Whether a single lies between `-m` and `m`.
pub open spec fn is_up_to(a: Single, m: real) -> bool {
    is_finite(a) && size(worth(a)) <= m
}

/// Whether the bounds lie between `-m` and `m` in both directions, the lesser ones first.
pub open spec fn are_up_to(b: Bounds, m: real) -> bool {
    &&& is_up_to(b.min_x, m)
    &&& is_up_to(b.max_x, m)
    &&& is_up_to(b.min_y, m)
    &&& is_up_to(b.max_y, m)
    &&& worth(b.min_x) <= worth(b.max_x)
    &&& worth(b.min_y) <= worth(b.max_y)
}

/// Whether the window shows the bounds: it leaves out nothing of them, is as wide as high and no
/// greater than it has to be, and has the middle of the bounds in its own middle, all but for a
/// millionth of `m`.
pub open spec fn fits(w: Window, b: Bounds, m: real) -> bool {
    let slack = m / 1_000_000 as real;
    let (wide, high) = (worth(b.max_x) - worth(b.min_x), worth(b.max_y) - worth(b.min_y));
    &&& worth(w.left) <= worth(b.min_x) + slack
    &&& worth(w.right) >= worth(b.max_x) - slack
    &&& worth(w.bottom) <= worth(b.min_y) + slack
    &&& worth(w.top) >= worth(b.max_y) - slack
    &&& is_close(worth(w.right) - worth(w.left), worth(w.top) - worth(w.bottom), 2 as real * m)
    &&& is_close(worth(w.right) - worth(w.left), wide, 2 as real * m) || is_close(
        worth(w.right) - worth(w.left),
        high,
        2 as real * m,
    )
    &&& is_close(
        worth(w.left) + worth(w.right),
        worth(b.min_x) + worth(b.max_x),
        2 as real * m,
    )
    &&& is_close(
        worth(w.bottom) + worth(w.top),
        worth(b.min_y) + worth(b.max_y),
        2 as real * m,
    )
}

/// The middle of two numbers, as far as singles can give it.
proof fn lemma_middle(low: Single, high: Single, m: real)
    requires
        is_up_to(low, m),
        is_up_to(high, m),
        1 as real <= m <= 0x1000_0000_0000_0000 as real,
    ensures
        ({
            let c = times(
                ieee(),
                plus(ieee(), low, high),
                Single { bits: HALF },
            );
            &&& is_finite(c)
            &&& size(worth(c) - (worth(low) + worth(high)) / 2 as real) <= 4 as real * m
                / 0x100_0000 as real
        }),
{
    lemma_constants();
    let half = Single { bits: HALF };
    let sum = plus(ieee(), low, high);
    lemma_sum_within(low, high, 2 as real * m);
    let (s, h) = (worth(sum), worth(half));
    assert(s * h == s / 2 as real) by (nonlinear_arith)
        requires
            h == 1 as real / 2 as real,
    ;
    lemma_product_within(sum, half, 2 as real * m);
}

/// Half of the greater of two lengths, as far as singles can give it.
proof fn lemma_reach(b: Bounds, m: real)
    requires
        are_up_to(b, m),
        1 as real <= m <= 0x1000_0000_0000_0000 as real,
    ensures
        ({
            let width = minus(ieee(), b.max_x, b.min_x);
            let height = minus(ieee(), b.max_y, b.min_y);
            let r = over(ieee(), width.max_spec(height), Single { bits: TWO });
            let (wide, high) = (worth(b.max_x) - worth(b.min_x), worth(b.max_y) - worth(b.min_y));
            let slack = 4 as real * m / 0x100_0000 as real;
            &&& is_finite(r)
            &&& worth(r) >= wide / 2 as real - slack
            &&& worth(r) >= high / 2 as real - slack
            &&& worth(r) <= wide / 2 as real + slack || worth(r) <= high / 2 as real + slack
        }),
{
    lemma_constants();
    let two = Single { bits: TWO };
    let width = minus(ieee(), b.max_x, b.min_x);
    let height = minus(ieee(), b.max_y, b.min_y);
    lemma_difference_within(b.max_x, b.min_x, 2 as real * m);
    lemma_difference_within(b.max_y, b.min_y, 2 as real * m);
    lemma_order(width, height);
    let longer = width.max_spec(height);
    let (l, t) = (worth(longer), worth(two));
    assert(l / t == l / 2 as real) by (nonlinear_arith)
        requires
            t == 2 as real,
    ;
    lemma_quotient_within(longer, two, 2 as real * m);
}

/// The window holds all of the bounds in both directions, is square and no greater than that, and
/// has them in its middle, up to rounding.
pub proof fn law_window_holds_the_bounds(b: Bounds, m: real)
    requires
        are_up_to(b, m),
        1 as real <= m <= 0x1000_0000_0000_0000 as real,
    ensures
        fits(window_round(ieee(), b), b, m),
{
    let half = Single { bits: HALF };
    let cx = times(ieee(), plus(ieee(), b.min_x, b.max_x), half);
    let cy = times(ieee(), plus(ieee(), b.min_y, b.max_y), half);
    let width = minus(ieee(), b.max_x, b.min_x);
    let height = minus(ieee(), b.max_y, b.min_y);
    let reach = over(ieee(), width.max_spec(height), Single { bits: TWO });
    lemma_middle(b.min_x, b.max_x, m);
    lemma_middle(b.min_y, b.max_y, m);
    lemma_reach(b, m);
    lemma_difference_within(cx, reach, 3 as real * m);
    lemma_sum_within(cx, reach, 3 as real * m);
    lemma_difference_within(cy, reach, 3 as real * m);
    lemma_sum_within(cy, reach, 3 as real * m);
}

/// What a model says of its placement is done, each number in its own direction, and moves are
/// given in sixteenths of a block.
pub proof fn law_models_stand_as_they_say(
    sem: Meaning,
    display: Map<Seq<char>, DisplayTransform>,
    rotation: [Single; 3],
    translation: [Single; 3],
    scale: [Single; 3],
)
    requires
        display.dom().contains("gui"@),
    ensures
        ({
            let gui = display["gui"@];
            let p = placed(sem, Some(display));
            let sixteen = Single { bits: SIXTEEN };
            &&& gui.rotation == Some(rotation) ==> p.rotation.x == rotation[0] && p.rotation.y
                == rotation[1] && p.rotation.z == rotation[2]
            &&& gui.translation == Some(translation) ==> p.translation.x == over(
                sem,
                translation[0],
                sixteen,
            ) && p.translation.y == over(sem, translation[1], sixteen) && p.translation.z == over(
                sem,
                translation[2],
                sixteen,
            )
            &&& gui.scale == Some(scale) ==> p.scale.x == scale[0] && p.scale.y == scale[1]
                && p.scale.z == scale[2]
        }),
{
}

/// Whether a point has the coordinates with the given bit patterns.
pub open spec fn is_at(p: Point, x: u32, y: u32, z: u32) -> bool {
    p.x.bits == x && p.y.bits == y && p.z.bits == z
}

/// Of what a model does not say of its placement, each is as for an item in an inventory, whatever
/// it says of the rest and of other placements.
pub proof fn law_models_stand_as_items_else(
    sem: Meaning,
    display: Option<Map<Seq<char>, DisplayTransform>>,
)
    ensures
        ({
            let p = placed(sem, display);
            let named = display is Some && display->0.dom().contains("gui"@);
            let zero = Single { bits: ZERO };
            let still = over(sem, zero, Single { bits: SIXTEEN });
            &&& !named || display->0["gui"@].rotation is None ==> is_at(
                p.rotation,
                THIRTY,
                TWO_HUNDRED_TWENTY_FIVE,
                ZERO,
            )
            &&& !named || display->0["gui"@].translation is None ==> p.translation.x == still
                && p.translation.y == still && p.translation.z == still
            &&& !named || display->0["gui"@].scale is None ==> is_at(
                p.scale,
                FIVE_EIGHTHS,
                FIVE_EIGHTHS,
                FIVE_EIGHTHS,
            )
        }),
{
}

/// Whether a point is seen at a real place.
pub open spec fn is_somewhere(p: Projected) -> bool {
    is_finite(p.x) && is_finite(p.y)
}

/// Whether some of the first `n` corners of a box is seen at `x`.
pub open spec fn box_reaches_x(
    sem: Meaning,
    to: Projection,
    element: ElementView,
    n: nat,
    x: Single,
) -> bool {
    exists|k: int| 0 <= k < n && (#[trigger] seen_corner(sem, to, element, k)).x == x
}

/// Whether some of the first `n` corners of a box is seen at height `y`.
pub open spec fn box_reaches_y(
    sem: Meaning,
    to: Projection,
    element: ElementView,
    n: nat,
    y: Single,
) -> bool {
    exists|k: int| 0 <= k < n && (#[trigger] seen_corner(sem, to, element, k)).y == y
}

/// Whether some corner of the first `n` boxes is seen at `x`.
pub open spec fn reaches_x(
    sem: Meaning,
    to: Projection,
    elements: Seq<ElementView>,
    n: nat,
    x: Single,
) -> bool {
    exists|i: int| 0 <= i < n && #[trigger] box_reaches_x(sem, to, elements[i], 8, x)
}

/// Whether some corner of the first `n` boxes is seen at height `y`.
pub open spec fn reaches_y(
    sem: Meaning,
    to: Projection,
    elements: Seq<ElementView>,
    n: nat,
    y: Single,
) -> bool {
    exists|i: int| 0 <= i < n && #[trigger] box_reaches_y(sem, to, elements[i], 8, y)
}

proof fn lemma_box_reached(sem: Meaning, to: Projection, b: Bounds, element: ElementView, n: nat)
    ensures
        ({
            let after = widened_by_box(sem, to, b, element, n);
            let first = seen_corner(sem, to, element, 0);
            &&& after.min_x == b.min_x || box_reaches_x(sem, to, element, n, after.min_x)
            &&& after.max_x == b.max_x || box_reaches_x(sem, to, element, n, after.max_x)
            &&& after.min_y == b.min_y || box_reaches_y(sem, to, element, n, after.min_y)
            &&& after.max_y == b.max_y || box_reaches_y(sem, to, element, n, after.max_y)
            &&& n > 0 && !b.min_x.lt(first.x) ==> box_reaches_x(sem, to, element, n, after.min_x)
            &&& n > 0 && !first.x.lt(b.max_x) ==> box_reaches_x(sem, to, element, n, after.max_x)
            &&& n > 0 && !b.min_y.lt(first.y) ==> box_reaches_y(sem, to, element, n, after.min_y)
            &&& n > 0 && !first.y.lt(b.max_y) ==> box_reaches_y(sem, to, element, n, after.max_y)
        }),
    decreases n,
{
    if n > 0 {
        let m = (n - 1) as nat;
        lemma_box_reached(sem, to, b, element, m);
        let earlier = widened_by_box(sem, to, b, element, m);
        let after = widened_by_box(sem, to, b, element, n);
        let p = seen_corner(sem, to, element, n - 1);
        assert forall|v: Single| #[trigger]
            box_reaches_x(sem, to, element, m, v) implies box_reaches_x(sem, to, element, n, v) by {
            let k = choose|k: int|
                0 <= k < m && (#[trigger] seen_corner(sem, to, element, k)).x == v;
            assert(seen_corner(sem, to, element, k).x == v);
        }
        assert forall|v: Single| #[trigger]
            box_reaches_y(sem, to, element, m, v) implies box_reaches_y(sem, to, element, n, v) by {
            let k = choose|k: int|
                0 <= k < m && (#[trigger] seen_corner(sem, to, element, k)).y == v;
            assert(seen_corner(sem, to, element, k).y == v);
        }
        assert(box_reaches_x(sem, to, element, n, p.x));
        assert(box_reaches_y(sem, to, element, n, p.y));
    }
}

/// No real number is greater than the greatest single, none less than the least.
proof fn lemma_extremes(a: Single)
    requires
        is_finite(a),
    ensures
        !(Single { bits: GREATEST }).lt(a),
        !a.lt(Single { bits: LEAST }),
{
    if a.magnitude() < GREATEST {
        lemma_units_increase(a.magnitude(), GREATEST as nat);
    }
}

/// The bounds are no wider than they have to be: each is reached by a corner of a box.
pub proof fn law_bounds_are_reached(
    sem: Meaning,
    to: Projection,
    elements: Seq<ElementView>,
    n: nat,
)
    requires
        0 < n <= elements.len(),
        forall|i: int, k: int|
            0 <= i < n && 0 <= k < 8 ==> is_somewhere(
                #[trigger] seen_corner(sem, to, elements[i], k),
            ),
    ensures
        ({
            let b = bounds_of(sem, to, elements, n);
            &&& reaches_x(sem, to, elements, n, b.min_x)
            &&& reaches_x(sem, to, elements, n, b.max_x)
            &&& reaches_y(sem, to, elements, n, b.min_y)
            &&& reaches_y(sem, to, elements, n, b.max_y)
        }),
    decreases n,
{
    let m = (n - 1) as nat;
    let earlier = bounds_of(sem, to, elements, m);
    let b = bounds_of(sem, to, elements, n);
    lemma_box_reached(sem, to, earlier, elements[n - 1], 8);
    let first = seen_corner(sem, to, elements[n - 1], 0);
    assert(is_somewhere(first));
    lemma_extremes(first.x);
    lemma_extremes(first.y);
    if m > 0 {
        law_bounds_are_reached(sem, to, elements, m);
    }
    assert forall|v: Single| m > 0 && #[trigger]
        reaches_x(sem, to, elements, m, v) implies reaches_x(sem, to, elements, n, v) by {
        let i = choose|i: int|
            0 <= i < m && #[trigger] box_reaches_x(sem, to, elements[i], 8, v);
        assert(box_reaches_x(sem, to, elements[i], 8, v));
    }
    assert forall|v: Single| m > 0 && #[trigger]
        reaches_y(sem, to, elements, m, v) implies reaches_y(sem, to, elements, n, v) by {
        let i = choose|i: int|
            0 <= i < m && #[trigger] box_reaches_y(sem, to, elements[i], 8, v);
        assert(box_reaches_y(sem, to, elements[i], 8, v));
    }
}

/// The window holds every corner of every box, up to rounding.
pub proof fn law_window_holds_every_corner(
    to: Projection,
    elements: Seq<ElementView>,
    i: int,
    k: int,
    m: real,
)
    requires
        1 as real <= m <= 0x1000_0000_0000_0000 as real,
        0 <= i < elements.len(),
        0 <= k < 8,
        forall|j: int, l: int|
            0 <= j < elements.len() && 0 <= l < 8 ==> {
                let p = #[trigger] seen_corner(ieee(), to, elements[j], l);
                is_up_to(p.x, m) && is_up_to(p.y, m)
            },
    ensures
        ({
            let p = seen_corner(ieee(), to, elements[i], k);
            let w = window_round(ieee(), bounds_of(ieee(), to, elements, elements.len()));
            let slack = m / 1_000_000 as real;
            &&& worth(w.left) - slack <= worth(p.x) <= worth(w.right) + slack
            &&& worth(w.bottom) - slack <= worth(p.y) <= worth(w.top) + slack
        }),
{
    let n = elements.len();
    let b = bounds_of(ieee(), to, elements, n);
    law_bounds_are_reached(ieee(), to, elements, n);
    lemma_reached_x(to, elements, b.min_x, m);
    lemma_reached_x(to, elements, b.max_x, m);
    lemma_reached_y(to, elements, b.min_y, m);
    lemma_reached_y(to, elements, b.max_y, m);
    law_bounds_hold_every_corner(ieee(), to, elements, n, i, k);
    let p = seen_corner(ieee(), to, elements[i], k);
    assert(is_within(b, p));
    lemma_order(p.x, b.min_x);
    lemma_order(b.max_x, p.x);
    lemma_order(p.y, b.min_y);
    lemma_order(b.max_y, p.y);
    law_window_holds_the_bounds(b, m);
}

proof fn lemma_reached_x(to: Projection, elements: Seq<ElementView>, x: Single, m: real)
    requires
        reaches_x(ieee(), to, elements, elements.len(), x),
        forall|j: int, l: int|
            0 <= j < elements.len() && 0 <= l < 8 ==> is_up_to(
                (#[trigger] seen_corner(ieee(), to, elements[j], l)).x,
                m,
            ),
    ensures
        is_up_to(x, m),
{
    let j = choose|j: int|
        0 <= j < elements.len() && #[trigger] box_reaches_x(ieee(), to, elements[j], 8, x);
    let l = choose|l: int|
        0 <= l < 8 && (#[trigger] seen_corner(ieee(), to, elements[j], l)).x == x;
    assert(seen_corner(ieee(), to, elements[j], l).x == x);
}

proof fn lemma_reached_y(to: Projection, elements: Seq<ElementView>, y: Single, m: real)
    requires
        reaches_y(ieee(), to, elements, elements.len(), y),
        forall|j: int, l: int|
            0 <= j < elements.len() && 0 <= l < 8 ==> is_up_to(
                (#[trigger] seen_corner(ieee(), to, elements[j], l)).y,
                m,
            ),
    ensures
        is_up_to(y, m),
{
    let j = choose|j: int|
        0 <= j < elements.len() && #[trigger] box_reaches_y(ieee(), to, elements[j], 8, y);
    let l = choose|l: int|
        0 <= l < 8 && (#[trigger] seen_corner(ieee(), to, elements[j], l)).y == y;
    assert(seen_corner(ieee(), to, elements[j], l).y == y);
}

}
