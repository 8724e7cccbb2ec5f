//! Where a model stands when it is drawn, and the window that shows all of it.
use crate::arith::{
    accepts_all, add_singles, divide_singles, means, minus, multiply_singles, over, plus,
    subtract_singles, times, Meaning, Operation,
};
use crate::model::{display_view, element_views, entry, DisplayTransform, ElementView, ModelElement};
use crate::name_map::NameMap;
use crate::render::{
    accepts_points, corner_of, corner_point, projects, Corner, Point, Projected, Projection,
};
use crate::single::{
    Single, FIVE_EIGHTHS, GREATEST, HALF, LEAST, SIXTEEN, THIRTY, TWO, TWO_HUNDRED_TWENTY_FIVE, ZERO,
};
use vstd::prelude::*;

verus! {

/// How a model is placed: turned by `rotation`, in degrees, moved by `translation`, in
/// blocks, and scaled by `scale`.
#[derive(Clone, Copy, Debug)]
pub struct Placement {
    pub rotation: Point,
    pub translation: Point,
    pub scale: Point,
}

/// The point with the given bit patterns.
pub open spec fn point(x: u32, y: u32, z: u32) -> Point {
    Point { x: Single { bits: x }, y: Single { bits: y }, z: Single { bits: z } }
}

/// The three numbers, or `default` where there are none.
pub open spec fn given_or(three: Option<[Single; 3]>, default: Point) -> Point {
    match three {
        Some(t) => Point { x: t[0], y: t[1], z: t[2] },
        None => default,
    }
}

/// How a model is placed: as its placement called `gui` says, and where that does not say, turned
/// as an item in an inventory and five eighths as large.
pub open spec fn placed(
    sem: Meaning,
    display: Option<Map<Seq<char>, DisplayTransform>>,
) -> Placement {
    let gui = match entry(display, "gui"@) {
        Some(transform) => transform,
        None => DisplayTransform { rotation: None, translation: None, scale: None },
    };
    let sixteen = Single { bits: SIXTEEN };
    let moved = given_or(gui.translation, point(ZERO, ZERO, ZERO));
    Placement {
        rotation: given_or(gui.rotation, point(THIRTY, TWO_HUNDRED_TWENTY_FIVE, ZERO)),
        translation: Point {
            x: over(sem, moved.x, sixteen),
            y: over(sem, moved.y, sixteen),
            z: over(sem, moved.z, sixteen),
        },
        scale: given_or(gui.scale, point(FIVE_EIGHTHS, FIVE_EIGHTHS, FIVE_EIGHTHS)),
    }
}

fn give_or(three: &Option<[Single; 3]>, default: Point) -> (r: Point)
    ensures
        r == given_or(*three, default),
{
    match three {
        Some(t) => Point { x: t[0], y: t[1], z: t[2] },
        None => default,
    }
}

fn make_point(x: u32, y: u32, z: u32) -> (r: Point)
    ensures
        r == point(x, y, z),
{
    Point { x: Single { bits: x }, y: Single { bits: y }, z: Single { bits: z } }
}

/// How a model is placed.
pub fn place_model<F: Fn(Operation) -> Single>(
    display: &Option<NameMap<DisplayTransform>>,
    arith: &F,
) -> (r: Placement)
    requires
        accepts_all(*arith),
    ensures
        forall|sem: Meaning| #[trigger]
            means(*arith, sem) ==> r == placed(sem, display_view(*display)),
{
    let mut gui = DisplayTransform { rotation: None, translation: None, scale: None };
    if let Some(map) = display {
        if let Some(found) = map.get("gui") {
            gui = *found;
        }
    }
    let sixteen = Single { bits: SIXTEEN };
    let moved = give_or(&gui.translation, make_point(ZERO, ZERO, ZERO));
    Placement {
        rotation: give_or(&gui.rotation, make_point(THIRTY, TWO_HUNDRED_TWENTY_FIVE, ZERO)),
        translation: Point {
            x: divide_singles(arith, moved.x, sixteen),
            y: divide_singles(arith, moved.y, sixteen),
            z: divide_singles(arith, moved.z, sixteen),
        },
        scale: give_or(&gui.scale, make_point(FIVE_EIGHTHS, FIVE_EIGHTHS, FIVE_EIGHTHS)),
    }
}

/// The least box on the plane of the view round some points.
#[derive(Clone, Copy, Debug)]
pub struct Bounds {
    pub min_x: Single,
    pub min_y: Single,
    pub max_x: Single,
    pub max_y: Single,
}

/// What a view shows: from left to right and from bottom to top.
#[derive(Clone, Copy, Debug)]
pub struct Window {
    pub left: Single,
    pub right: Single,
    pub bottom: Single,
    pub top: Single,
}

/// `a` where it is less than `b`, else `b`.
pub open spec fn lesser(a: Single, b: Single) -> Single {
    if a.lt(b) {
        a
    } else {
        b
    }
}

/// `a` where it is greater than `b`, else `b`.
pub open spec fn greater(a: Single, b: Single) -> Single {
    if b.lt(a) {
        a
    } else {
        b
    }
}

/// The bounds of no point.
pub open spec fn no_bounds() -> Bounds {
    let greatest = Single { bits: GREATEST };
    let least = Single { bits: LEAST };
    Bounds { min_x: greatest, min_y: greatest, max_x: least, max_y: least }
}

/// The bounds with one point more.
pub open spec fn widened(b: Bounds, p: Projected) -> Bounds {
    Bounds {
        min_x: lesser(b.min_x, p.x),
        min_y: lesser(b.min_y, p.y),
        max_x: greater(b.max_x, p.x),
        max_y: greater(b.max_y, p.y),
    }
}

/// The corner of a box with number `i` out of eight.
pub open spec fn numbered_corner(i: int) -> Corner {
    Corner { x: i % 2 == 1, y: i / 2 % 2 == 1, z: i / 4 % 2 == 1 }
}

/// Where the corner with number `i` of a box is seen.
pub open spec fn seen_corner(sem: Meaning, to: Projection, element: ElementView, i: int) -> Projected {
    to(corner_point(sem, element.from, element.to, numbered_corner(i)))
}

/// The bounds with the first `n` corners of a box.
pub open spec fn widened_by_box(
    sem: Meaning,
    to: Projection,
    b: Bounds,
    element: ElementView,
    n: nat,
) -> Bounds
    decreases n,
{
    if n == 0 {
        b
    } else {
        widened(
            widened_by_box(sem, to, b, element, (n - 1) as nat),
            seen_corner(sem, to, element, n - 1),
        )
    }
}

/// The bounds of the first `n` boxes.
pub open spec fn bounds_of(
    sem: Meaning,
    to: Projection,
    elements: Seq<ElementView>,
    n: nat,
) -> Bounds
    decreases n,
{
    if n == 0 {
        no_bounds()
    } else {
        widened_by_box(sem, to, bounds_of(sem, to, elements, (n - 1) as nat), elements[n - 1], 8)
    }
}

/// The square window with the middle of the bounds in its own middle, as wide as the
/// bounds are in the direction in which they are wider.
pub open spec fn window_round(sem: Meaning, b: Bounds) -> Window {
    let half = Single { bits: HALF };
    let center_x = times(sem, plus(sem, b.min_x, b.max_x), half);
    let center_y = times(sem, plus(sem, b.min_y, b.max_y), half);
    let width = minus(sem, b.max_x, b.min_x);
    let height = minus(sem, b.max_y, b.min_y);
    let reach = over(sem, width.max_spec(height), Single { bits: TWO });
    Window {
        left: minus(sem, center_x, reach),
        right: plus(sem, center_x, reach),
        bottom: minus(sem, center_y, reach),
        top: plus(sem, center_y, reach),
    }
}

fn widen(b: Bounds, p: Projected) -> (r: Bounds)
    ensures
        r == widened(b, p),
{
    Bounds {
        min_x: if b.min_x.less(p.x) {
            b.min_x
        } else {
            p.x
        },
        min_y: if b.min_y.less(p.y) {
            b.min_y
        } else {
            p.y
        },
        max_x: if p.x.less(b.max_x) {
            b.max_x
        } else {
            p.x
        },
        max_y: if p.y.less(b.max_y) {
            b.max_y
        } else {
            p.y
        },
    }
}

/// The bounds of boxes that are seen as `view` says.
pub fn find_bounds<F: Fn(Operation) -> Single, P: Fn(Point) -> Projected>(
    elements: &Vec<ModelElement>,
    view: &P,
    arith: &F,
) -> (r: Bounds)
    requires
        accepts_all(*arith),
        accepts_points(*view),
    ensures
        forall|sem: Meaning, to: Projection|
            #![trigger means(*arith, sem), projects(*view, to)]
            means(*arith, sem) && projects(*view, to) ==> r == bounds_of(
                sem,
                to,
                element_views(elements@),
                elements@.len(),
            ),
{
    let ghost views = element_views(elements@);
    let greatest = Single { bits: GREATEST };
    let least = Single { bits: LEAST };
    let mut bounds = Bounds { min_x: greatest, min_y: greatest, max_x: least, max_y: least };
    let mut i: usize = 0;
    while i < elements.len()
        invariant
            accepts_all(*arith),
            accepts_points(*view),
            i <= elements.len(),
            views == element_views(elements@),
            forall|sem: Meaning, to: Projection|
                #![trigger means(*arith, sem), projects(*view, to)]
                means(*arith, sem) && projects(*view, to) ==> bounds == bounds_of(
                    sem,
                    to,
                    views,
                    i as nat,
                ),
        decreases elements.len() - i,
    {
        let element = &elements[i];
        let ghost before = bounds;
        assert(views[i as int] == element@);
        let mut n: u32 = 0;
        while n < 8
            invariant
                accepts_all(*arith),
                accepts_points(*view),
                n <= 8,
                forall|sem: Meaning, to: Projection|
                    #![trigger means(*arith, sem), projects(*view, to)]
                    means(*arith, sem) && projects(*view, to) ==> bounds == widened_by_box(
                        sem,
                        to,
                        before,
                        element@,
                        n as nat,
                    ),
            decreases 8 - n,
        {
            let c = Corner { x: n % 2 == 1, y: n / 2 % 2 == 1, z: n / 4 % 2 == 1 };
            assert(c == numbered_corner(n as int));
            let p = corner_of(arith, &element.from, &element.to, c);
            let seen = view(p);
            bounds = widen(bounds, seen);
            n += 1;
        }
        i += 1;
    }
    bounds
}

/// The window that shows the boxes.
pub fn fit_window<F: Fn(Operation) -> Single, P: Fn(Point) -> Projected>(
    elements: &Vec<ModelElement>,
    view: &P,
    arith: &F,
) -> (r: Window)
    requires
        accepts_all(*arith),
        accepts_points(*view),
    ensures
        forall|sem: Meaning, to: Projection|
            #![trigger means(*arith, sem), projects(*view, to)]
            means(*arith, sem) && projects(*view, to) ==> r == window_round(
                sem,
                bounds_of(sem, to, element_views(elements@), elements@.len()),
            ),
{
    let b = find_bounds(elements, view, arith);
    let half = Single { bits: HALF };
    let sum_x = add_singles(arith, b.min_x, b.max_x);
    let sum_y = add_singles(arith, b.min_y, b.max_y);
    let center_x = multiply_singles(arith, sum_x, half);
    let center_y = multiply_singles(arith, sum_y, half);
    let width = subtract_singles(arith, b.max_x, b.min_x);
    let height = subtract_singles(arith, b.max_y, b.min_y);
    let reach = divide_singles(arith, width.max(height), Single { bits: TWO });
    Window {
        left: subtract_singles(arith, center_x, reach),
        right: add_singles(arith, center_x, reach),
        bottom: subtract_singles(arith, center_y, reach),
        top: add_singles(arith, center_y, reach),
    }
}

/// Whether a point lies within the bounds.
pub open spec fn is_within(b: Bounds, p: Projected) -> bool {
    p.x.ge(b.min_x) && b.max_x.ge(p.x) && p.y.ge(b.min_y) && b.max_y.ge(p.y)
}

/// Whether the place of a point on the plane of the view is given by numbers.
pub open spec fn is_placed(p: Projected) -> bool {
    !p.x.is_nan() && !p.y.is_nan()
}

/// Whether the bounds are given by numbers.
spec fn is_defined(b: Bounds) -> bool {
    !b.min_x.is_nan() && !b.min_y.is_nan() && !b.max_x.is_nan() && !b.max_y.is_nan()
}

proof fn lemma_box_within(
    sem: Meaning,
    to: Projection,
    b: Bounds,
    element: ElementView,
    n: nat,
)
    requires
        is_defined(b),
        forall|i: int| 0 <= i < n ==> is_placed(#[trigger] seen_corner(sem, to, element, i)),
    ensures
        ({
            let after = widened_by_box(sem, to, b, element, n);
            &&& is_defined(after)
            &&& forall|p: Projected| is_within(b, p) ==> #[trigger] is_within(after, p)
            &&& forall|i: int|
                0 <= i < n ==> is_within(after, #[trigger] seen_corner(sem, to, element, i))
        }),
    decreases n,
{
    if n > 0 {
        let m = (n - 1) as nat;
        lemma_box_within(sem, to, b, element, m);
        let earlier = widened_by_box(sem, to, b, element, m);
        let after = widened_by_box(sem, to, b, element, n);
        assert(is_placed(seen_corner(sem, to, element, n - 1)));
        assert forall|p: Projected| is_within(earlier, p) implies is_within(after, p) by {
        }
        assert forall|p: Projected| is_within(b, p) implies #[trigger] is_within(after, p) by {
            assert(is_within(earlier, p));
        }
        assert forall|i: int| 0 <= i < n implies is_within(
            after,
            #[trigger] seen_corner(sem, to, element, i),
        ) by {
            if i < m {
                assert(is_within(earlier, seen_corner(sem, to, element, i)));
            }
        }
    }
}

/// Every corner of every box lies within the bounds, where its place is given by numbers.
pub proof fn law_bounds_hold_every_corner(
    sem: Meaning,
    to: Projection,
    elements: Seq<ElementView>,
    n: nat,
    k: int,
    i: int,
)
    requires
        n <= elements.len(),
        0 <= k < n,
        0 <= i < 8,
        forall|e: int, c: int|
            0 <= e < n && 0 <= c < 8 ==> is_placed(#[trigger] seen_corner(sem, to, elements[e], c)),
    ensures
        is_within(bounds_of(sem, to, elements, n), seen_corner(sem, to, elements[k], i)),
    decreases n,
{
    lemma_bounds_defined(sem, to, elements, (n - 1) as nat);
    lemma_box_within(sem, to, bounds_of(sem, to, elements, (n - 1) as nat), elements[n - 1], 8);
    if k < n - 1 {
        law_bounds_hold_every_corner(sem, to, elements, (n - 1) as nat, k, i);
    }
}

proof fn lemma_bounds_defined(sem: Meaning, to: Projection, elements: Seq<ElementView>, n: nat)
    requires
        n <= elements.len(),
        forall|e: int, c: int|
            0 <= e < n && 0 <= c < 8 ==> is_placed(#[trigger] seen_corner(sem, to, elements[e], c)),
    ensures
        is_defined(bounds_of(sem, to, elements, n)),
    decreases n,
{
    if n > 0 {
        lemma_bounds_defined(sem, to, elements, (n - 1) as nat);
        lemma_box_within(sem, to, bounds_of(sem, to, elements, (n - 1) as nat), elements[n - 1], 8);
    }
}

/// The eight numbers name eight different corners, which are all that there are.
pub proof fn law_corners_are_numbered(c: Corner, i: int, j: int)
    ensures
        exists|k: int| 0 <= k < 8 && #[trigger] numbered_corner(k) == c,
        0 <= i < 8 && 0 <= j < 8 && numbered_corner(i) == numbered_corner(j) ==> i == j,
{
    let k = (if c.x { 1int } else { 0 }) + (if c.y { 2int } else { 0 }) + (if c.z { 4int } else { 0 });
    assert(numbered_corner(k) == c);
}

}
