//! Drawing the boxes of a model: which corners a face has, which part of its
//! texture it shows, how bright it is, and how the canvas becomes an image.
use crate::animation::{
    frame_at, law_frames_are_squares, shows, AnimatedTexture, Shot, TextureView,
};
use crate::arith::{
    accepts_all, add_singles, convert_whole, divide_singles, means, minus, multiply_singles, over,
    plus, subtract_singles, times, whole, Meaning, Operation,
};
use crate::json::{JsonValue, ValueView};
use crate::model::{
    element_views, has_finite_reference, reference_is_finite, resolve_texture, texture_name,
    ElementView, FaceView, ModelElement, ModelFace,
};
use crate::name_map::NameMap;
use crate::pixels::{lemma_same_pixels, ImageView, Rgba, RgbaImage};
use crate::raster::{
    compute_opacity, draw_triangle, drawn, lemma_cell, opacity, unpack, unpacked, Canvas, Vertex,
};
use crate::single::{
    units_in_one, Single, FOUR, FOUR_FIFTHS, GREATEST, HALF, ONE, SIXTEEN, THREE_FIFTHS,
    TWO_HUNDRED_FIFTY_FIVE, ZERO,
};
use crate::text::same_text;
use vstd::prelude::*;

verus! {

/// A point in the space of the model.
#[derive(Clone, Copy, Debug)]
pub struct Point {
    pub x: Single,
    pub y: Single,
    pub z: Single,
}

/// A point as it is projected, before its coordinates are divided by `w`.
#[derive(Clone, Copy, Debug)]
pub struct Projected {
    pub x: Single,
    pub y: Single,
    pub z: Single,
    pub w: Single,
}

/// Where a projection takes each point.
pub type Projection = spec_fn(Point) -> Projected;

/// Whether `project` accepts every point.
pub open spec fn accepts_points<P: Fn(Point) -> Projected>(project: P) -> bool {
    forall|p: Point| #[trigger] call_requires(project, (p,))
}

/// Whether `project` takes points where `to` says.
pub open spec fn projects<P: Fn(Point) -> Projected>(project: P, to: Projection) -> bool {
    forall|p: Point, r: Projected| #[trigger] call_ensures(project, (p,), r) ==> r == to(p)
}

/// A side of a box.
#[derive(Clone, Copy, Debug, PartialEq, Eq, Structural)]
pub enum Side {
    Down,
    Up,
    North,
    South,
    West,
    East,
}

/// A corner of a box: for each axis, whether it lies at the far end.
#[derive(Clone, Copy, Debug, PartialEq, Eq, Structural)]
pub struct Corner {
    pub x: bool,
    pub y: bool,
    pub z: bool,
}

/// The side with the given name.
pub open spec fn side_named(name: Seq<char>) -> Option<Side> {
    if name == "down"@ {
        Some(Side::Down)
    } else if name == "up"@ {
        Some(Side::Up)
    } else if name == "north"@ {
        Some(Side::North)
    } else if name == "south"@ {
        Some(Side::South)
    } else if name == "west"@ {
        Some(Side::West)
    } else if name == "east"@ {
        Some(Side::East)
    } else {
        None
    }
}

/// How bright a side is: full where the box is not shaded.
pub open spec fn brightness_of(side: Side, shaded: bool) -> Single {
    Single {
        bits: match side {
            Side::Down if shaded => HALF,
            Side::North if shaded => FOUR_FIFTHS,
            Side::South if shaded => FOUR_FIFTHS,
            Side::West if shaded => THREE_FIFTHS,
            Side::East if shaded => THREE_FIFTHS,
            _ => ONE,
        },
    }
}

/// The corner that is far along the given axes.
pub open spec fn corner(x: bool, y: bool, z: bool) -> Corner {
    Corner { x, y, z }
}

/// The corners of a side, as seen from outside: upper left, upper right, lower
/// left and lower right.
pub open spec fn corners_of(side: Side) -> (Corner, Corner, Corner, Corner) {
    match side {
        Side::North => (
            corner(true, true, false),
            corner(false, true, false),
            corner(true, false, false),
            corner(false, false, false),
        ),
        Side::South => (
            corner(false, true, true),
            corner(true, true, true),
            corner(false, false, true),
            corner(true, false, true),
        ),
        Side::West => (
            corner(false, true, false),
            corner(false, true, true),
            corner(false, false, false),
            corner(false, false, true),
        ),
        Side::East => (
            corner(true, true, true),
            corner(true, true, false),
            corner(true, false, true),
            corner(true, false, false),
        ),
        Side::Up => (
            corner(false, true, false),
            corner(true, true, false),
            corner(false, true, true),
            corner(true, true, true),
        ),
        Side::Down => (
            corner(false, false, true),
            corner(true, false, true),
            corner(false, false, false),
            corner(true, false, false),
        ),
    }
}

/// A coordinate of a box, from sixteenths of a block to blocks from its middle.
pub open spec fn centered(sem: Meaning, coordinate: Single) -> Single {
    minus(sem, over(sem, coordinate, Single { bits: SIXTEEN }), Single { bits: HALF })
}

/// Where a corner of a box lies.
pub open spec fn corner_point(sem: Meaning, from: [Single; 3], to: [Single; 3], c: Corner) -> Point {
    Point {
        x: centered(sem, if c.x { to[0] } else { from[0] }),
        y: centered(sem, if c.y { to[1] } else { from[1] }),
        z: centered(sem, if c.z { to[2] } else { from[2] }),
    }
}

/// A point of a texture.
pub type TexturePoint = (Single, Single);

/// The points of the texture at the corners of a face that is not turned: those of
/// the part that it shows, or of the whole texture.
pub open spec fn texture_corners(sem: Meaning, uv: Option<[Single; 4]>) -> (
    TexturePoint,
    TexturePoint,
    TexturePoint,
    TexturePoint,
) {
    let sixteen = Single { bits: SIXTEEN };
    let zero = Single { bits: ZERO };
    let (left, top, right, bottom) = match uv {
        Some(part) => (part[0], part[1], part[2], part[3]),
        None => (zero, zero, sixteen, sixteen),
    };
    let (u1, v1) = (over(sem, left, sixteen), over(sem, top, sixteen));
    let (u2, v2) = (over(sem, right, sixteen), over(sem, bottom, sixteen));
    ((u1, v1), (u2, v1), (u1, v2), (u2, v2))
}

/// The four, each moved on by a quarter turn.
pub open spec fn turned<T>(four: (T, T, T, T)) -> (T, T, T, T) {
    (four.2, four.0, four.3, four.1)
}

/// The four after `n` quarter turns.
pub open spec fn turned_by<T>(four: (T, T, T, T), n: nat) -> (T, T, T, T)
    decreases n,
{
    if n == 0 {
        four
    } else {
        turned(turned_by(four, (n - 1) as nat))
    }
}

/// The quarter turns of a rotation in degrees; a negative one does not turn.
pub open spec fn quarter_turns(rotation: Option<i32>) -> nat {
    match rotation {
        Some(degrees) if degrees > 0 => ((degrees as int / 90) % 4) as nat,
        _ => 0,
    }
}

/// A coordinate from the range -1 to 1 to the range 0 to `size`.
pub open spec fn on_canvas(sem: Meaning, ratio: Single, size: nat) -> Single {
    let half = Single { bits: HALF };
    times(sem, plus(sem, times(sem, ratio, half), half), whole(sem, size as u64))
}

/// The corner of a triangle at a projected point.
pub open spec fn vertex_at(
    sem: Meaning,
    p: Projected,
    uv: TexturePoint,
    brightness: Single,
    size: nat,
) -> Vertex {
    Vertex {
        x: on_canvas(sem, over(sem, p.x, p.w), size),
        y: on_canvas(sem, over(sem, p.y.neg_spec(), p.w), size),
        z: over(sem, p.z, p.w),
        u: uv.0,
        v: uv.1,
        brightness,
    }
}

/// The corners of a face on a canvas of the given size.
pub open spec fn face_vertices(
    sem: Meaning,
    to: Projection,
    element: ElementView,
    side: Side,
    face: FaceView,
    size: nat,
) -> (Vertex, Vertex, Vertex, Vertex) {
    let shaded = match element.shade {
        Some(shade) => shade,
        None => true,
    };
    let brightness = brightness_of(side, shaded);
    let uvs = turned_by(texture_corners(sem, face.uv), quarter_turns(face.rotation));
    let cs = corners_of(side);
    let at = |c: Corner, uv: TexturePoint|
        vertex_at(
            sem,
            to(corner_point(sem, element.from, element.to, c)),
            uv,
            brightness,
            size,
        );
    (at(cs.0, uvs.0), at(cs.1, uvs.1), at(cs.2, uvs.2), at(cs.3, uvs.3))
}

/// What is drawn: the textures that faces refer to, the texture files, and
/// which of their frames is shown.
pub struct Scene {
    pub textures: Map<Seq<char>, ValueView>,
    pub cache: Map<Seq<char>, TextureView>,
    pub frame_index: int,
    pub size: nat,
}

/// The canvas once a face is drawn, as two triangles; a face whose texture file is
/// missing, or whose name is that of no side, is not drawn.
pub open spec fn face_drawn(
    sem: Meaning,
    to: Projection,
    scene: Scene,
    before: Canvas,
    element: ElementView,
    name: Seq<char>,
    face: FaceView,
) -> Canvas {
    let file = texture_name(scene.textures, face.texture);
    match side_named(name) {
        Some(side) if scene.cache.dom().contains(file) => {
            let tex = frame_at(scene.cache[file], scene.frame_index);
            let v = face_vertices(sem, to, element, side, face, scene.size);
            let half = drawn(sem, before, scene.size, scene.size, v.0, v.1, v.2, tex);
            drawn(sem, half, scene.size, scene.size, v.1, v.3, v.2, tex)
        },
        _ => before,
    }
}

/// The canvas once the first `n` faces of a box are drawn.
pub open spec fn faces_drawn(
    sem: Meaning,
    to: Projection,
    scene: Scene,
    before: Canvas,
    element: ElementView,
    n: nat,
) -> Canvas
    decreases n,
{
    if n == 0 {
        before
    } else {
        let earlier = faces_drawn(sem, to, scene, before, element, (n - 1) as nat);
        let (name, face) = element.faces[n - 1];
        face_drawn(sem, to, scene, earlier, element, name, face)
    }
}

/// The canvas once the first `n` boxes are drawn.
pub open spec fn elements_drawn(
    sem: Meaning,
    to: Projection,
    scene: Scene,
    before: Canvas,
    elements: Seq<ElementView>,
    n: nat,
) -> Canvas
    decreases n,
{
    if n == 0 {
        before
    } else {
        let earlier = elements_drawn(sem, to, scene, before, elements, (n - 1) as nat);
        let element = elements[n - 1];
        faces_drawn(sem, to, scene, earlier, element, element.faces.len())
    }
}

/// The canvas on which nothing is drawn.
pub open spec fn blank_canvas(size: nat) -> Canvas {
    Canvas {
        colors: Seq::new(size * size, |i: int| 0u32),
        depths: Seq::new(size * size, |i: int| Single { bits: GREATEST }),
    }
}

/// Four channels, each weighed by its alpha, added up.
pub open spec fn weighed_sum(sem: Meaning, channels: (u8, u8, u8, u8), alphas: (u8, u8, u8, u8)) -> Single {
    let part = |c: u8, a: u8| times(sem, whole(sem, c as u64), opacity(sem, a));
    let zero = Single { bits: ZERO };
    let first = plus(sem, zero, part(channels.0, alphas.0));
    let second = plus(sem, first, part(channels.1, alphas.1));
    let third = plus(sem, second, part(channels.2, alphas.2));
    plus(sem, third, part(channels.3, alphas.3))
}

/// Four alphas added up.
pub open spec fn alpha_sum(sem: Meaning, alphas: (u8, u8, u8, u8)) -> Single {
    let zero = Single { bits: ZERO };
    let first = plus(sem, zero, opacity(sem, alphas.0));
    let second = plus(sem, first, opacity(sem, alphas.1));
    let third = plus(sem, second, opacity(sem, alphas.2));
    plus(sem, third, opacity(sem, alphas.3))
}

/// The pixel that stands for four pixels, each of which counts as much as it is opaque.
pub open spec fn averaged(sem: Meaning, p: (Rgba, Rgba, Rgba, Rgba)) -> Rgba {
    let alphas = (p.0.a, p.1.a, p.2.a, p.3.a);
    let sum = alpha_sum(sem, alphas);
    let channel = |channels: (u8, u8, u8, u8)|
        if (Single { bits: ZERO }).lt(sum) {
            over(sem, weighed_sum(sem, channels, alphas), sum).rounded() as u8
        } else {
            0u8
        };
    Rgba {
        r: channel((p.0.r, p.1.r, p.2.r, p.3.r)),
        g: channel((p.0.g, p.1.g, p.2.g, p.3.g)),
        b: channel((p.0.b, p.1.b, p.2.b, p.3.b)),
        a: times(
            sem,
            over(sem, sum, Single { bits: FOUR }),
            Single { bits: TWO_HUNDRED_FIFTY_FIVE },
        ).rounded() as u8,
    }
}

/// The pixel of the image at `x`, `y`: that of the canvas, or, where the canvas is
/// twice as wide and high, the average of four.
pub open spec fn image_pixel(
    sem: Meaning,
    colors: Seq<u32>,
    target_size: int,
    use_aa: bool,
    x: int,
    y: int,
) -> Rgba {
    if use_aa {
        let width = 2 * target_size;
        averaged(
            sem,
            (
                unpacked(colors[(2 * y) * width + 2 * x]),
                unpacked(colors[(2 * y) * width + (2 * x + 1)]),
                unpacked(colors[(2 * y + 1) * width + 2 * x]),
                unpacked(colors[(2 * y + 1) * width + (2 * x + 1)]),
            ),
        )
    } else {
        unpacked(colors[y * target_size + x])
    }
}

/// Whether `image` is the image of a canvas.
pub open spec fn is_image_of(
    sem: Meaning,
    image: ImageView,
    colors: Seq<u32>,
    target_size: int,
    use_aa: bool,
) -> bool {
    &&& image.is_full()
    &&& image.width == target_size
    &&& image.height == target_size
    &&& forall|x: int, y: int|
        image.has(x, y) ==> #[trigger] image.pixel(x, y) == image_pixel(
            sem,
            colors,
            target_size,
            use_aa,
            x,
            y,
        )
}

/// How many pixels of the canvas stand side by side for one of the image.
pub open spec fn canvas_scale(use_aa: bool) -> nat {
    if use_aa {
        2
    } else {
        1
    }
}

/// Whether a texture has frames, and the one shown at `index` has pixels.
pub open spec fn shows_pixels(texture: TextureView, index: int) -> bool {
    &&& texture.frames.len() > 0
    &&& frame_at(texture, index).width > 0
    &&& frame_at(texture, index).height > 0
}

/// Whether a face can be drawn or left out: its references end, and its texture file, where
/// there is one, has frames. Where the face is that of a side, the frame shown has pixels.
pub open spec fn face_is_renderable(
    textures: Map<Seq<char>, ValueView>,
    cache: Map<Seq<char>, TextureView>,
    frame_index: int,
    name: Seq<char>,
    face: FaceView,
) -> bool {
    let file = texture_name(textures, face.texture);
    &&& reference_is_finite(textures, face.texture)
    &&& cache.dom().contains(file) ==> cache[file].frames.len() > 0
    &&& cache.dom().contains(file) && side_named(name) is Some ==> shows_pixels(
        cache[file],
        frame_index,
    )
}

/// Whether each face of a box can be drawn or left out.
pub open spec fn element_is_renderable(
    textures: Map<Seq<char>, ValueView>,
    cache: Map<Seq<char>, TextureView>,
    frame_index: int,
    element: ElementView,
) -> bool {
    forall|i: int|
        0 <= i < element.faces.len() ==> face_is_renderable(
            textures,
            cache,
            frame_index,
            (#[trigger] element.faces[i]).0,
            element.faces[i].1,
        )
}

/// Whether each face can be drawn or left out, with the given frame of each texture.
pub open spec fn is_renderable(
    textures: Map<Seq<char>, ValueView>,
    cache: Map<Seq<char>, TextureView>,
    frame_index: int,
    elements: Seq<ElementView>,
) -> bool {
    forall|i: int|
        0 <= i < elements.len() ==> element_is_renderable(
            textures,
            cache,
            frame_index,
            #[trigger] elements[i],
        )
}

/// Whether each face can be drawn or left out, with each of the first `n` frames.
pub open spec fn are_renderable(
    textures: Map<Seq<char>, ValueView>,
    cache: Map<Seq<char>, TextureView>,
    n: nat,
    elements: Seq<ElementView>,
) -> bool {
    forall|k: int| 0 <= k < n ==> #[trigger] is_renderable(textures, cache, k, elements)
}

/// Whether an image and the canvas that it is made of can be held: a pixel takes four bytes of
/// an image, and four for each of the colors and the depths of a canvas.
pub open spec fn size_fits(target_size: nat, use_aa: bool) -> bool {
    let size = target_size * canvas_scale(use_aa);
    &&& target_size <= u32::MAX
    &&& 4 * (size * size) <= isize::MAX
    &&& 4 * (target_size * target_size) <= isize::MAX
}

impl Side {
    /// The side with the given name.
    pub fn from_name(name: &str) -> (r: Option<Side>)
        ensures
            r == side_named(name@),
    {
        if same_text(name, "down") {
            Some(Side::Down)
        } else if same_text(name, "up") {
            Some(Side::Up)
        } else if same_text(name, "north") {
            Some(Side::North)
        } else if same_text(name, "south") {
            Some(Side::South)
        } else if same_text(name, "west") {
            Some(Side::West)
        } else if same_text(name, "east") {
            Some(Side::East)
        } else {
            None
        }
    }

    /// How bright the side is.
    pub fn brightness(self, shaded: bool) -> (r: Single)
        ensures
            r == brightness_of(self, shaded),
    {
        let bits: u32 = if !shaded {
            ONE
        } else {
            match self {
                Side::Down => HALF,
                Side::Up => ONE,
                Side::North => FOUR_FIFTHS,
                Side::South => FOUR_FIFTHS,
                Side::West => THREE_FIFTHS,
                Side::East => THREE_FIFTHS,
            }
        };
        Single { bits }
    }

    /// The corners of the side: upper left, upper right, lower left, lower right.
    pub fn corners(self) -> (r: (Corner, Corner, Corner, Corner))
        ensures
            r == corners_of(self),
    {
        let (far, near) = (true, false);
        match self {
            Side::North => (
                Corner { x: far, y: far, z: near },
                Corner { x: near, y: far, z: near },
                Corner { x: far, y: near, z: near },
                Corner { x: near, y: near, z: near },
            ),
            Side::South => (
                Corner { x: near, y: far, z: far },
                Corner { x: far, y: far, z: far },
                Corner { x: near, y: near, z: far },
                Corner { x: far, y: near, z: far },
            ),
            Side::West => (
                Corner { x: near, y: far, z: near },
                Corner { x: near, y: far, z: far },
                Corner { x: near, y: near, z: near },
                Corner { x: near, y: near, z: far },
            ),
            Side::East => (
                Corner { x: far, y: far, z: far },
                Corner { x: far, y: far, z: near },
                Corner { x: far, y: near, z: far },
                Corner { x: far, y: near, z: near },
            ),
            Side::Up => (
                Corner { x: near, y: far, z: near },
                Corner { x: far, y: far, z: near },
                Corner { x: near, y: far, z: far },
                Corner { x: far, y: far, z: far },
            ),
            Side::Down => (
                Corner { x: near, y: near, z: far },
                Corner { x: far, y: near, z: far },
                Corner { x: near, y: near, z: near },
                Corner { x: far, y: near, z: near },
            ),
        }
    }
}

fn center<F: Fn(Operation) -> Single>(arith: &F, coordinate: Single) -> (r: Single)
    requires
        accepts_all(*arith),
    ensures
        forall|sem: Meaning| #[trigger] means(*arith, sem) ==> r == centered(sem, coordinate),
{
    let blocks = divide_singles(arith, coordinate, Single { bits: SIXTEEN });
    subtract_singles(arith, blocks, Single { bits: HALF })
}

/// Where a corner of a box lies.
pub fn corner_of<F: Fn(Operation) -> Single>(
    arith: &F,
    from: &[Single; 3],
    to: &[Single; 3],
    c: Corner,
) -> (r: Point)
    requires
        accepts_all(*arith),
    ensures
        forall|sem: Meaning| #[trigger]
            means(*arith, sem) ==> r == corner_point(sem, *from, *to, c),
{
    Point {
        x: center(arith, if c.x { to[0] } else { from[0] }),
        y: center(arith, if c.y { to[1] } else { from[1] }),
        z: center(arith, if c.z { to[2] } else { from[2] }),
    }
}

/// The points of the texture at the corners of a face.
fn place_texture<F: Fn(Operation) -> Single>(arith: &F, face: &ModelFace) -> (r: (
    TexturePoint,
    TexturePoint,
    TexturePoint,
    TexturePoint,
))
    requires
        accepts_all(*arith),
    ensures
        forall|sem: Meaning| #[trigger]
            means(*arith, sem) ==> r == turned_by(
                texture_corners(sem, face.uv),
                quarter_turns(face.rotation),
            ),
{
    let sixteen = Single { bits: SIXTEEN };
    let zero = Single { bits: ZERO };
    let (left, top, right, bottom) = match &face.uv {
        Some(part) => (part[0], part[1], part[2], part[3]),
        None => (zero, zero, sixteen, sixteen),
    };
    let u1 = divide_singles(arith, left, sixteen);
    let v1 = divide_singles(arith, top, sixteen);
    let u2 = divide_singles(arith, right, sixteen);
    let v2 = divide_singles(arith, bottom, sixteen);
    let mut uvs = ((u1, v1), (u2, v1), (u1, v2), (u2, v2));
    let ghost start = uvs;
    let turns: i32 = match face.rotation {
        Some(degrees) => if degrees > 0 {
            (degrees / 90) % 4
        } else {
            0
        },
        None => 0,
    };
    let mut i: i32 = 0;
    while i < turns
        invariant
            0 <= i <= turns,
            uvs == turned_by(start, i as nat),
        decreases turns - i,
    {
        uvs = (uvs.2, uvs.0, uvs.3, uvs.1);
        i += 1;
    }
    uvs
}

fn to_canvas<F: Fn(Operation) -> Single>(arith: &F, ratio: Single, size: usize) -> (r: Single)
    requires
        accepts_all(*arith),
    ensures
        forall|sem: Meaning| #[trigger]
            means(*arith, sem) ==> r == on_canvas(sem, ratio, size as nat),
{
    let half = Single { bits: HALF };
    let halved = multiply_singles(arith, ratio, half);
    let part = add_singles(arith, halved, half);
    let n = convert_whole(arith, size as u64);
    multiply_singles(arith, part, n)
}

/// The corner of a triangle at a projected point.
fn make_vertex<F: Fn(Operation) -> Single>(
    arith: &F,
    p: Projected,
    uv: TexturePoint,
    brightness: Single,
    size: usize,
) -> (r: Vertex)
    requires
        accepts_all(*arith),
    ensures
        forall|sem: Meaning| #[trigger]
            means(*arith, sem) ==> r == vertex_at(sem, p, uv, brightness, size as nat),
{
    let across = divide_singles(arith, p.x, p.w);
    let up = divide_singles(arith, p.y.neg(), p.w);
    Vertex {
        x: to_canvas(arith, across, size),
        y: to_canvas(arith, up, size),
        z: divide_singles(arith, p.z, p.w),
        u: uv.0,
        v: uv.1,
        brightness,
    }
}

/// The corners of a face on a canvas of the given size.
fn place_face<F: Fn(Operation) -> Single, P: Fn(Point) -> Projected>(
    arith: &F,
    project: &P,
    element: &ModelElement,
    side: Side,
    face: &ModelFace,
    size: usize,
) -> (r: (Vertex, Vertex, Vertex, Vertex))
    requires
        accepts_all(*arith),
        accepts_points(*project),
    ensures
        forall|sem: Meaning, to: Projection|
            #![trigger means(*arith, sem), projects(*project, to)]
            means(*arith, sem) && projects(*project, to) ==> r == face_vertices(
                sem,
                to,
                element@,
                side,
                face@,
                size as nat,
            ),
{
    let shaded = match element.shade {
        Some(shade) => shade,
        None => true,
    };
    let brightness = side.brightness(shaded);
    let uvs = place_texture(arith, face);
    let cs = side.corners();
    let c0 = corner_of(arith, &element.from, &element.to, cs.0);
    let c1 = corner_of(arith, &element.from, &element.to, cs.1);
    let c2 = corner_of(arith, &element.from, &element.to, cs.2);
    let c3 = corner_of(arith, &element.from, &element.to, cs.3);
    let p0 = project(c0);
    let p1 = project(c1);
    let p2 = project(c2);
    let p3 = project(c3);
    (
        make_vertex(arith, p0, uvs.0, brightness, size),
        make_vertex(arith, p1, uvs.1, brightness, size),
        make_vertex(arith, p2, uvs.2, brightness, size),
        make_vertex(arith, p3, uvs.3, brightness, size),
    )
}

/// Draws a face on a canvas of the given size.
fn draw_face<F: Fn(Operation) -> Single, P: Fn(Point) -> Projected>(
    fb: &mut Vec<u32>,
    zb: &mut Vec<Single>,
    size: usize,
    element: &ModelElement,
    name: &str,
    face: &ModelFace,
    textures: &NameMap<JsonValue>,
    texture_cache: &NameMap<AnimatedTexture>,
    frame_index: usize,
    project: &P,
    arith: &F,
)
    requires
        accepts_all(*arith),
        accepts_points(*project),
        size * size <= old(fb)@.len(),
        size * size <= old(zb)@.len(),
        face_is_renderable(textures@, texture_cache@, frame_index as int, name@, face@),
    ensures
        final(fb)@.len() == old(fb)@.len(),
        final(zb)@.len() == old(zb)@.len(),
        forall|sem: Meaning, to: Projection|
            #![trigger means(*arith, sem), projects(*project, to)]
            means(*arith, sem) && projects(*project, to) ==> (Canvas {
                colors: final(fb)@,
                depths: final(zb)@,
            }) == face_drawn(
                sem,
                to,
                Scene {
                    textures: textures@,
                    cache: texture_cache@,
                    frame_index: frame_index as int,
                    size: size as nat,
                },
                Canvas { colors: old(fb)@, depths: old(zb)@ },
                element@,
                name@,
                face@,
            ),
{
    let file = resolve_texture(face.texture.clone(), textures);
    let animated = match texture_cache.get(file.as_str()) {
        Some(texture) => texture,
        None => return,
    };
    let tex = animated.get_frame(frame_index);
    let side = match Side::from_name(name) {
        Some(side) => side,
        None => return,
    };
    let v = place_face(arith, project, element, side, face, size);
    draw_triangle(fb, zb, size, size, v.0, v.1, v.2, tex, arith);
    draw_triangle(fb, zb, size, size, v.1, v.3, v.2, tex, arith);
}

/// Draws the boxes on a canvas of the given size.
fn draw_elements<F: Fn(Operation) -> Single, P: Fn(Point) -> Projected>(
    fb: &mut Vec<u32>,
    zb: &mut Vec<Single>,
    size: usize,
    elements: &Vec<ModelElement>,
    textures: &NameMap<JsonValue>,
    texture_cache: &NameMap<AnimatedTexture>,
    frame_index: usize,
    project: &P,
    arith: &F,
)
    requires
        accepts_all(*arith),
        accepts_points(*project),
        size * size <= old(fb)@.len(),
        size * size <= old(zb)@.len(),
        is_renderable(
            textures@,
            texture_cache@,
            frame_index as int,
            element_views(elements@),
        ),
    ensures
        final(fb)@.len() == old(fb)@.len(),
        final(zb)@.len() == old(zb)@.len(),
        forall|sem: Meaning, to: Projection|
            #![trigger means(*arith, sem), projects(*project, to)]
            means(*arith, sem) && projects(*project, to) ==> (Canvas {
                colors: final(fb)@,
                depths: final(zb)@,
            }) == elements_drawn(
                sem,
                to,
                Scene {
                    textures: textures@,
                    cache: texture_cache@,
                    frame_index: frame_index as int,
                    size: size as nat,
                },
                Canvas { colors: old(fb)@, depths: old(zb)@ },
                element_views(elements@),
                elements@.len(),
            ),
{
    let ghost scene = Scene {
        textures: textures@,
        cache: texture_cache@,
        frame_index: frame_index as int,
        size: size as nat,
    };
    let ghost before = Canvas { colors: fb@, depths: zb@ };
    let ghost views = element_views(elements@);
    let mut i: usize = 0;
    while i < elements.len()
        invariant
            accepts_all(*arith),
            accepts_points(*project),
            scene == (Scene {
                textures: textures@,
                cache: texture_cache@,
                frame_index: frame_index as int,
                size: size as nat,
            }),
            views == element_views(elements@),
            i <= elements.len(),
            size * size <= fb@.len(),
            size * size <= zb@.len(),
            fb@.len() == before.colors.len(),
            zb@.len() == before.depths.len(),
            is_renderable(textures@, texture_cache@, frame_index as int, views),
            forall|sem: Meaning, to: Projection|
                #![trigger means(*arith, sem), projects(*project, to)]
                means(*arith, sem) && projects(*project, to) ==> (Canvas {
                    colors: fb@,
                    depths: zb@,
                }) == elements_drawn(sem, to, scene, before, views, i as nat),
        decreases elements.len() - i,
    {
        let element = &elements[i];
        let ghost box_before = Canvas { colors: fb@, depths: zb@ };
        assert(views[i as int] == element@);
        assert(element_is_renderable(textures@, texture_cache@, frame_index as int, element@));
        let mut j: usize = 0;
        while j < element.faces.len()
            invariant
                accepts_all(*arith),
                accepts_points(*project),
                scene == (Scene {
                    textures: textures@,
                    cache: texture_cache@,
                    frame_index: frame_index as int,
                    size: size as nat,
                }),
                j <= element.faces.items().len(),
                size * size <= fb@.len(),
                size * size <= zb@.len(),
                fb@.len() == before.colors.len(),
                zb@.len() == before.depths.len(),
                element_is_renderable(textures@, texture_cache@, frame_index as int, element@),
                forall|sem: Meaning, to: Projection|
                    #![trigger means(*arith, sem), projects(*project, to)]
                    means(*arith, sem) && projects(*project, to) ==> (Canvas {
                        colors: fb@,
                        depths: zb@,
                    }) == faces_drawn(sem, to, scene, box_before, element@, j as nat),
            decreases element.faces.items().len() - j,
        {
            let name = element.faces.name_at(j);
            let face = element.faces.value_at(j);
            assert(element@.faces[j as int] == (name@, face@));
            draw_face(
                fb,
                zb,
                size,
                element,
                name.as_str(),
                face,
                textures,
                texture_cache,
                frame_index,
                project,
                arith,
            );
            j += 1;
        }
        i += 1;
    }
}

fn add_weighed<F: Fn(Operation) -> Single>(
    arith: &F,
    channels: (u8, u8, u8, u8),
    alphas: (u8, u8, u8, u8),
) -> (r: Single)
    requires
        accepts_all(*arith),
    ensures
        forall|sem: Meaning| #[trigger]
            means(*arith, sem) ==> r == weighed_sum(sem, channels, alphas),
{
    let p0 = weigh_channel(arith, channels.0, alphas.0);
    let p1 = weigh_channel(arith, channels.1, alphas.1);
    let p2 = weigh_channel(arith, channels.2, alphas.2);
    let p3 = weigh_channel(arith, channels.3, alphas.3);
    let first = add_singles(arith, Single { bits: ZERO }, p0);
    let second = add_singles(arith, first, p1);
    let third = add_singles(arith, second, p2);
    add_singles(arith, third, p3)
}

fn weigh_channel<F: Fn(Operation) -> Single>(arith: &F, c: u8, a: u8) -> (r: Single)
    requires
        accepts_all(*arith),
    ensures
        forall|sem: Meaning| #[trigger]
            means(*arith, sem) ==> r == times(sem, whole(sem, c as u64), opacity(sem, a)),
{
    let n = convert_whole(arith, c as u64);
    let weight = compute_opacity(arith, a);
    multiply_singles(arith, n, weight)
}

fn add_alphas<F: Fn(Operation) -> Single>(arith: &F, alphas: (u8, u8, u8, u8)) -> (r: Single)
    requires
        accepts_all(*arith),
    ensures
        forall|sem: Meaning| #[trigger] means(*arith, sem) ==> r == alpha_sum(sem, alphas),
{
    let a0 = compute_opacity(arith, alphas.0);
    let a1 = compute_opacity(arith, alphas.1);
    let a2 = compute_opacity(arith, alphas.2);
    let a3 = compute_opacity(arith, alphas.3);
    let first = add_singles(arith, Single { bits: ZERO }, a0);
    let second = add_singles(arith, first, a1);
    let third = add_singles(arith, second, a2);
    add_singles(arith, third, a3)
}

/// The pixel that stands for four pixels.
fn average<F: Fn(Operation) -> Single>(arith: &F, p: (Rgba, Rgba, Rgba, Rgba)) -> (r: Rgba)
    requires
        accepts_all(*arith),
    ensures
        forall|sem: Meaning| #[trigger] means(*arith, sem) ==> r == averaged(sem, p),
{
    let alphas = (p.0.a, p.1.a, p.2.a, p.3.a);
    let sum = add_alphas(arith, alphas);
    let part = divide_singles(arith, sum, Single { bits: FOUR });
    let a = multiply_singles(arith, part, Single { bits: TWO_HUNDRED_FIFTY_FIVE }).round();
    if !(Single { bits: ZERO }).less(sum) {
        return Rgba { r: 0, g: 0, b: 0, a };
    }
    let red = add_weighed(arith, (p.0.r, p.1.r, p.2.r, p.3.r), alphas);
    let green = add_weighed(arith, (p.0.g, p.1.g, p.2.g, p.3.g), alphas);
    let blue = add_weighed(arith, (p.0.b, p.1.b, p.2.b, p.3.b), alphas);
    Rgba {
        r: divide_singles(arith, red, sum).round(),
        g: divide_singles(arith, green, sum).round(),
        b: divide_singles(arith, blue, sum).round(),
        a,
    }
}

/// The pixel of the image at `x`, `y`.
fn sample<F: Fn(Operation) -> Single>(
    arith: &F,
    fb: &Vec<u32>,
    target_size: usize,
    use_aa: bool,
    x: usize,
    y: usize,
) -> (r: Rgba)
    requires
        accepts_all(*arith),
        size_fits(target_size as nat, use_aa),
        fb@.len() == (target_size * canvas_scale(use_aa)) * (target_size * canvas_scale(use_aa)),
        x < target_size,
        y < target_size,
    ensures
        forall|sem: Meaning| #[trigger]
            means(*arith, sem) ==> r == image_pixel(
                sem,
                fb@,
                target_size as int,
                use_aa,
                x as int,
                y as int,
            ),
{
    let ghost n = target_size as int;
    if use_aa {
        proof {
            lemma_square_bounds((2 * n) as nat);
            lemma_cell(2 * n, 2 * n, 2 * x as int, 2 * y as int);
            lemma_cell(2 * n, 2 * n, 2 * x + 1, 2 * y as int);
            lemma_cell(2 * n, 2 * n, 2 * x as int, 2 * y + 1);
            lemma_cell(2 * n, 2 * n, 2 * x + 1, 2 * y + 1);
        }
        let width: usize = 2 * target_size;
        let (left, right) = (2 * x, 2 * x + 1);
        let (top, bottom) = ((2 * y) * width, (2 * y + 1) * width);
        average(
            arith,
            (
                unpack(fb[top + left]),
                unpack(fb[top + right]),
                unpack(fb[bottom + left]),
                unpack(fb[bottom + right]),
            ),
        )
    } else {
        proof {
            lemma_cell(n, n, x as int, y as int);
        }
        unpack(fb[y * target_size + x])
    }
}

/// A number is no greater than its square.
proof fn lemma_square_bounds(n: nat)
    ensures
        n <= n * n,
{
    assert(n <= n * n) by (nonlinear_arith);
}

/// The image of a canvas.
fn make_image<F: Fn(Operation) -> Single>(
    arith: &F,
    fb: &Vec<u32>,
    target_size: usize,
    use_aa: bool,
) -> (r: RgbaImage)
    requires
        accepts_all(*arith),
        size_fits(target_size as nat, use_aa),
        fb@.len() == (target_size * canvas_scale(use_aa)) * (target_size * canvas_scale(use_aa)),
    ensures
        r@.is_full(),
        r@.width == target_size,
        r@.height == target_size,
        forall|sem: Meaning| #[trigger]
            means(*arith, sem) ==> is_image_of(sem, r@, fb@, target_size as int, use_aa),
{
    let mut out = RgbaImage::new(target_size as u32, target_size as u32);
    let mut y: usize = 0;
    while y < target_size
        invariant
            accepts_all(*arith),
            size_fits(target_size as nat, use_aa),
            fb@.len() == (target_size * canvas_scale(use_aa)) * (target_size * canvas_scale(
                use_aa,
            )),
            y <= target_size,
            out@.is_full(),
            out@.width == target_size,
            out@.height == target_size,
            forall|sem: Meaning, i: int, j: int|
                #![trigger means(*arith, sem), out@.pixel(i, j)]
                means(*arith, sem) && 0 <= i < target_size && 0 <= j < y ==> out@.pixel(i, j)
                    == image_pixel(sem, fb@, target_size as int, use_aa, i, j),
        decreases target_size - y,
    {
        let mut x: usize = 0;
        while x < target_size
            invariant
                accepts_all(*arith),
                size_fits(target_size as nat, use_aa),
                fb@.len() == (target_size * canvas_scale(use_aa)) * (target_size * canvas_scale(
                    use_aa,
                )),
                y < target_size,
                x <= target_size,
                out@.is_full(),
                out@.width == target_size,
                out@.height == target_size,
                forall|sem: Meaning, i: int, j: int|
                    #![trigger means(*arith, sem), out@.pixel(i, j)]
                    means(*arith, sem) && 0 <= i < target_size && 0 <= j < target_size && (j < y
                        || j == y && i < x) ==> out@.pixel(i, j) == image_pixel(
                        sem,
                        fb@,
                        target_size as int,
                        use_aa,
                        i,
                        j,
                    ),
            decreases target_size - x,
        {
            let p = sample(arith, fb, target_size, use_aa, x, y);
            out.put_pixel(x as u32, y as u32, p);
            x += 1;
        }
        y += 1;
    }
    out
}

/// The image of a model, `target_size` pixels wide and high, with the given frame of each
/// texture. Where `use_aa` is set, the canvas is twice as wide and high, and
/// each pixel is the average of four.
pub fn render_single_frame<F: Fn(Operation) -> Single, P: Fn(Point) -> Projected>(
    elements: &Vec<ModelElement>,
    textures: &NameMap<JsonValue>,
    texture_cache: &NameMap<AnimatedTexture>,
    project: &P,
    frame_index: usize,
    target_size: usize,
    use_aa: bool,
    arith: &F,
) -> (r: RgbaImage)
    requires
        accepts_all(*arith),
        accepts_points(*project),
        size_fits(target_size as nat, use_aa),
        is_renderable(
            textures@,
            texture_cache@,
            frame_index as int,
            element_views(elements@),
        ),
    ensures
        r@.is_full(),
        r@.width == target_size,
        r@.height == target_size,
        forall|sem: Meaning, to: Projection|
            #![trigger means(*arith, sem), projects(*project, to)]
            means(*arith, sem) && projects(*project, to) ==> is_image_of_scene(
                sem,
                to,
                r@,
                Scene {
                    textures: textures@,
                    cache: texture_cache@,
                    frame_index: frame_index as int,
                    size: target_size as nat * canvas_scale(use_aa),
                },
                element_views(elements@),
                target_size as int,
                use_aa,
            ),
{
    proof {
        lemma_square_bounds(target_size as nat * canvas_scale(use_aa));
    }
    let scale: usize = if use_aa { 2 } else { 1 };
    let render_size: usize = target_size * scale;
    let mut frame_buffer: Vec<u32> = vec![0u32; render_size * render_size];
    let mut z_buffer: Vec<Single> = vec![Single { bits: GREATEST }; render_size * render_size];
    assert(frame_buffer@ =~= blank_canvas(render_size as nat).colors);
    assert(z_buffer@ =~= blank_canvas(render_size as nat).depths);
    draw_elements(
        &mut frame_buffer,
        &mut z_buffer,
        render_size,
        elements,
        textures,
        texture_cache,
        frame_index,
        project,
        arith,
    );
    make_image(arith, &frame_buffer, target_size, use_aa)
}

/// The number of images that a model is drawn with: one for each frame, at least one.
pub open spec fn image_count(frames: usize) -> nat {
    if frames > 1 {
        frames as nat
    } else {
        1
    }
}

/// Whether `image` shows the scene.
pub open spec fn is_image_of_scene(
    sem: Meaning,
    to: Projection,
    image: ImageView,
    scene: Scene,
    elements: Seq<ElementView>,
    target_size: int,
    use_aa: bool,
) -> bool {
    is_image_of(
        sem,
        image,
        scene_canvas(sem, to, scene, elements).colors,
        target_size,
        use_aa,
    )
}

/// The images of a model, one for each of `frames` frames, at least one.
pub fn render_frames<F: Fn(Operation) -> Single, P: Fn(Point) -> Projected>(
    elements: &Vec<ModelElement>,
    textures: &NameMap<JsonValue>,
    texture_cache: &NameMap<AnimatedTexture>,
    project: &P,
    frames: usize,
    target_size: usize,
    use_aa: bool,
    arith: &F,
) -> (r: Vec<RgbaImage>)
    requires
        accepts_all(*arith),
        accepts_points(*project),
        size_fits(target_size as nat, use_aa),
        are_renderable(
            textures@,
            texture_cache@,
            image_count(frames),
            element_views(elements@),
        ),
    ensures
        r@.len() == image_count(frames),
        forall|k: int|
            0 <= k < r@.len() ==> (#[trigger] r@[k])@.is_full() && r@[k]@.width == target_size
                && r@[k]@.height == target_size,
        forall|sem: Meaning, to: Projection, k: int|
            #![trigger means(*arith, sem), projects(*project, to), r@[k]]
            means(*arith, sem) && projects(*project, to) && 0 <= k < r@.len()
                ==> is_image_of_scene(
                sem,
                to,
                r@[k]@,
                Scene {
                    textures: textures@,
                    cache: texture_cache@,
                    frame_index: k,
                    size: target_size as nat * canvas_scale(use_aa),
                },
                element_views(elements@),
                target_size as int,
                use_aa,
            ),
{
    let count: usize = if frames > 1 { frames } else { 1 };
    let mut images: Vec<RgbaImage> = Vec::new();
    let mut f: usize = 0;
    while f < count
        invariant
            accepts_all(*arith),
            accepts_points(*project),
            size_fits(target_size as nat, use_aa),
            are_renderable(
                textures@,
                texture_cache@,
                count as nat,
                element_views(elements@),
            ),
            f <= count,
            images@.len() == f,
            forall|k: int|
                0 <= k < f ==> (#[trigger] images@[k])@.is_full() && images@[k]@.width
                    == target_size && images@[k]@.height == target_size,
            forall|sem: Meaning, to: Projection, k: int|
                #![trigger means(*arith, sem), projects(*project, to), images@[k]]
                means(*arith, sem) && projects(*project, to) && 0 <= k < f ==> is_image_of_scene(
                    sem,
                    to,
                    images@[k]@,
                    Scene {
                        textures: textures@,
                        cache: texture_cache@,
                        frame_index: k,
                        size: target_size as nat * canvas_scale(use_aa),
                    },
                    element_views(elements@),
                    target_size as int,
                    use_aa,
                ),
        decreases count - f,
    {
        let image = render_single_frame(
            elements,
            textures,
            texture_cache,
            project,
            f,
            target_size,
            use_aa,
            arith,
        );
        images.push(image);
        f += 1;
    }
    images
}

/// The canvas once all boxes are drawn.
pub open spec fn scene_canvas(
    sem: Meaning,
    to: Projection,
    scene: Scene,
    elements: Seq<ElementView>,
) -> Canvas {
    elements_drawn(sem, to, scene, blank_canvas(scene.size), elements, elements.len())
}

impl AnimatedTexture {
    /// Whether the texture has frames, and the one shown at `index` has pixels.
    pub fn can_show(&self, index: usize) -> (r: bool)
        ensures
            r == shows_pixels(self@, index as int),
    {
        if self.frames.len() == 0 {
            return false;
        }
        let frame = self.get_frame(index);
        frame.width() > 0 && frame.height() > 0
    }
}

/// Whether a face can be drawn or left out.
fn can_render_face(
    name: &str,
    face: &ModelFace,
    textures: &NameMap<JsonValue>,
    texture_cache: &NameMap<AnimatedTexture>,
    frame_index: usize,
) -> (r: bool)
    ensures
        r == face_is_renderable(textures@, texture_cache@, frame_index as int, name@, face@),
{
    if !has_finite_reference(face.texture.as_str(), textures) {
        return false;
    }
    let file = resolve_texture(face.texture.clone(), textures);
    match texture_cache.get(file.as_str()) {
        Some(texture) => if Side::from_name(name).is_some() {
            texture.can_show(frame_index)
        } else {
            texture.frames.len() > 0
        },
        None => true,
    }
}

/// Whether each face can be drawn or left out, with the given frame of each texture: see
/// [`is_renderable`].
pub fn can_render_frame(
    elements: &Vec<ModelElement>,
    textures: &NameMap<JsonValue>,
    texture_cache: &NameMap<AnimatedTexture>,
    frame_index: usize,
) -> (r: bool)
    ensures
        r == is_renderable(
            textures@,
            texture_cache@,
            frame_index as int,
            element_views(elements@),
        ),
{
    let ghost views = element_views(elements@);
    let mut i: usize = 0;
    while i < elements.len()
        invariant
            i <= elements.len(),
            views == element_views(elements@),
            forall|k: int|
                0 <= k < i ==> element_is_renderable(
                    textures@,
                    texture_cache@,
                    frame_index as int,
                    #[trigger] views[k],
                ),
        decreases elements.len() - i,
    {
        let faces = &elements[i].faces;
        assert(views[i as int].faces == faces.items());
        let mut j: usize = 0;
        while j < faces.len()
            invariant
                i < elements.len(),
                views == element_views(elements@),
                views[i as int].faces == faces.items(),
                j <= faces.items().len(),
                forall|k: int|
                    0 <= k < j ==> face_is_renderable(
                        textures@,
                        texture_cache@,
                        frame_index as int,
                        (#[trigger] views[i as int].faces[k]).0,
                        views[i as int].faces[k].1,
                    ),
            decreases faces.items().len() - j,
        {
            let name = faces.name_at(j);
            let face = faces.value_at(j);
            assert(views[i as int].faces[j as int] == (name@, face@));
            if !can_render_face(name.as_str(), face, textures, texture_cache, frame_index) {
                assert(!element_is_renderable(
                    textures@,
                    texture_cache@,
                    frame_index as int,
                    views[i as int],
                ));
                return false;
            }
            j += 1;
        }
        i += 1;
    }
    true
}

/// Whether each face can be drawn or left out, with each of `frames` frames, at least one: see
/// [`are_renderable`].
pub fn can_render(
    elements: &Vec<ModelElement>,
    textures: &NameMap<JsonValue>,
    texture_cache: &NameMap<AnimatedTexture>,
    frames: usize,
) -> (r: bool)
    ensures
        r == are_renderable(
            textures@,
            texture_cache@,
            image_count(frames),
            element_views(elements@),
        ),
{
    let count: usize = if frames > 1 { frames } else { 1 };
    let mut f: usize = 0;
    while f < count
        invariant
            count == image_count(frames),
            f <= count,
            forall|k: int|
                0 <= k < f ==> #[trigger] is_renderable(
                    textures@,
                    texture_cache@,
                    k,
                    element_views(elements@),
                ),
        decreases count - f,
    {
        if !can_render_frame(elements, textures, texture_cache, f) {
            return false;
        }
        f += 1;
    }
    true
}

/// Whether an image and the canvas that it is made of can be held: see [`size_fits`].
pub fn can_size(target_size: usize, use_aa: bool) -> (r: bool)
    ensures
        r == size_fits(target_size as nat, use_aa),
{
    if target_size > u32::MAX as usize {
        return false;
    }
    let scale: u128 = if use_aa { 2 } else { 1 };
    let target: u128 = target_size as u128;
    let size: u128 = target * scale;
    proof {
        assert(target * target <= 0xFFFF_FFFF * 0xFFFF_FFFF) by (nonlinear_arith)
            requires
                0 <= target <= 0xFFFF_FFFF,
        ;
        assert(size * size <= 0x1_FFFF_FFFE * 0x1_FFFF_FFFE) by (nonlinear_arith)
            requires
                0 <= size <= 0x1_FFFF_FFFE,
        ;
    }
    4 * (size * size) <= isize::MAX as u128 && 4 * (target * target) <= isize::MAX as u128
}

/// Whether a corner lies on a side.
pub open spec fn lies_on(c: Corner, side: Side) -> bool {
    match side {
        Side::Down => !c.y,
        Side::Up => c.y,
        Side::North => !c.z,
        Side::South => c.z,
        Side::West => !c.x,
        Side::East => c.x,
    }
}

/// The corners of a side are four different ones, and they are just those that lie on it.
pub proof fn law_sides_have_their_corners(side: Side, c: Corner)
    ensures
        ({
            let cs = corners_of(side);
            &&& lies_on(c, side) <==> c == cs.0 || c == cs.1 || c == cs.2 || c == cs.3
            &&& cs.0 != cs.1 && cs.0 != cs.2 && cs.0 != cs.3
            &&& cs.1 != cs.2 && cs.1 != cs.3 && cs.2 != cs.3
        }),
{
}

/// Four quarter turns are no turn.
pub proof fn law_full_turn<T>(four: (T, T, T, T), n: nat)
    ensures
        turned_by(four, n + 4) == turned_by(four, n),
{
    reveal_with_fuel(turned_by, 5);
}

/// A full circle more does not change how a face is turned, for rotations that are not negative.
pub proof fn law_full_circle(degrees: i32)
    requires
        0 <= degrees <= i32::MAX - 360,
    ensures
        quarter_turns(Some((degrees + 360) as i32)) == quarter_turns(Some(degrees)),
{
}

/// Whether `after` has the size of `before`, and no pixel lies farther away.
pub open spec fn is_nearer_or_same(before: Canvas, after: Canvas) -> bool {
    &&& after.colors.len() == before.colors.len()
    &&& after.depths.len() == before.depths.len()
    &&& forall|i: int|
        0 <= i < before.depths.len() ==> (#[trigger] after.depths[i]) == before.depths[i]
            || after.depths[i].lt(before.depths[i])
}

proof fn lemma_drawn_nearer(
    sem: Meaning,
    before: Canvas,
    w: nat,
    h: nat,
    v0: Vertex,
    v1: Vertex,
    v2: Vertex,
    tex: ImageView,
)
    ensures
        is_nearer_or_same(before, drawn(sem, before, w, h, v0, v1, v2, tex)),
{
}

proof fn lemma_nearer_twice(a: Canvas, b: Canvas, c: Canvas)
    requires
        is_nearer_or_same(a, b),
        is_nearer_or_same(b, c),
    ensures
        is_nearer_or_same(a, c),
{
    assert forall|i: int| 0 <= i < a.depths.len() implies (#[trigger] c.depths[i]) == a.depths[i]
        || c.depths[i].lt(a.depths[i]) by {
        assert(b.depths[i] == a.depths[i] || b.depths[i].lt(a.depths[i]));
    }
}

proof fn lemma_face_nearer(
    sem: Meaning,
    to: Projection,
    scene: Scene,
    before: Canvas,
    element: ElementView,
    name: Seq<char>,
    face: FaceView,
)
    ensures
        is_nearer_or_same(before, face_drawn(sem, to, scene, before, element, name, face)),
{
    let file = texture_name(scene.textures, face.texture);
    if let Some(side) = side_named(name) {
        let tex = frame_at(scene.cache[file], scene.frame_index);
        let v = face_vertices(sem, to, element, side, face, scene.size);
        let half = drawn(sem, before, scene.size, scene.size, v.0, v.1, v.2, tex);
        let full = drawn(sem, half, scene.size, scene.size, v.1, v.3, v.2, tex);
        lemma_drawn_nearer(sem, before, scene.size, scene.size, v.0, v.1, v.2, tex);
        lemma_drawn_nearer(sem, half, scene.size, scene.size, v.1, v.3, v.2, tex);
        lemma_nearer_twice(before, half, full);
    }
}

proof fn lemma_faces_nearer(
    sem: Meaning,
    to: Projection,
    scene: Scene,
    before: Canvas,
    element: ElementView,
    n: nat,
)
    ensures
        is_nearer_or_same(before, faces_drawn(sem, to, scene, before, element, n)),
    decreases n,
{
    if n > 0 {
        let m = (n - 1) as nat;
        lemma_faces_nearer(sem, to, scene, before, element, m);
        let earlier = faces_drawn(sem, to, scene, before, element, m);
        let (name, face) = element.faces[n - 1];
        lemma_face_nearer(sem, to, scene, earlier, element, name, face);
        lemma_nearer_twice(
            before,
            earlier,
            face_drawn(sem, to, scene, earlier, element, name, face),
        );
    }
}

/// Drawing boxes keeps the size of the canvas and brings no pixel farther away.
pub proof fn law_drawing_only_comes_nearer(
    sem: Meaning,
    to: Projection,
    scene: Scene,
    before: Canvas,
    elements: Seq<ElementView>,
    n: nat,
)
    ensures
        is_nearer_or_same(before, elements_drawn(sem, to, scene, before, elements, n)),
    decreases n,
{
    if n > 0 {
        let m = (n - 1) as nat;
        law_drawing_only_comes_nearer(sem, to, scene, before, elements, m);
        let earlier = elements_drawn(sem, to, scene, before, elements, m);
        let element = elements[n - 1];
        lemma_faces_nearer(sem, to, scene, earlier, element, element.faces.len());
        lemma_nearer_twice(
            before,
            earlier,
            faces_drawn(sem, to, scene, earlier, element, element.faces.len()),
        );
    }
}

/// Whether no face of a box can be drawn: each has a name that is that of no side, or a texture
/// file that is missing.
pub open spec fn is_undrawable(scene: Scene, element: ElementView) -> bool {
    forall|i: int|
        0 <= i < element.faces.len() ==> side_named((#[trigger] element.faces[i]).0) is None
            || !scene.cache.dom().contains(
            texture_name(scene.textures, element.faces[i].1.texture),
        )
}

proof fn lemma_no_face_drawn(
    sem: Meaning,
    to: Projection,
    scene: Scene,
    before: Canvas,
    element: ElementView,
    n: nat,
)
    requires
        is_undrawable(scene, element),
        n <= element.faces.len(),
    ensures
        faces_drawn(sem, to, scene, before, element, n) == before,
    decreases n,
{
    if n > 0 {
        lemma_no_face_drawn(sem, to, scene, before, element, (n - 1) as nat);
        assert(side_named(element.faces[n - 1].0) is None || !scene.cache.dom().contains(
            texture_name(scene.textures, element.faces[n - 1].1.texture),
        ));
    }
}

proof fn lemma_without_box(
    sem: Meaning,
    to: Projection,
    scene: Scene,
    before: Canvas,
    elements: Seq<ElementView>,
    k: int,
    element: ElementView,
    n: nat,
)
    requires
        is_undrawable(scene, element),
        0 <= k <= elements.len(),
        n <= elements.len() + 1,
    ensures
        elements_drawn(sem, to, scene, before, elements.insert(k, element), n) == elements_drawn(
            sem,
            to,
            scene,
            before,
            elements,
            if n <= k {
                n
            } else {
                (n - 1) as nat
            },
        ),
    decreases n,
{
    if n > 0 {
        let m = (n - 1) as nat;
        lemma_without_box(sem, to, scene, before, elements, k, element, m);
        if m == k {
            let earlier = elements_drawn(sem, to, scene, before, elements, m);
            lemma_no_face_drawn(sem, to, scene, earlier, element, element.faces.len());
        }
    }
}

/// Two images of the same canvas are the same.
pub proof fn lemma_same_image(
    sem: Meaning,
    a: ImageView,
    b: ImageView,
    colors: Seq<u32>,
    target_size: int,
    use_aa: bool,
)
    requires
        is_image_of(sem, a, colors, target_size, use_aa),
        is_image_of(sem, b, colors, target_size, use_aa),
    ensures
        a == b,
{
    assert forall|x: int, y: int| a.has(x, y) implies #[trigger] a.pixel(x, y) == b.pixel(x, y) by {
        assert(b.has(x, y));
        assert(b.pixel(x, y) == image_pixel(sem, colors, target_size, use_aa, x, y));
    }
    lemma_same_pixels(a, b);
}

/// A box none of whose faces can be drawn, put in at any place, changes neither the canvas nor
/// the image.
pub proof fn law_undrawable_box_changes_nothing(
    sem: Meaning,
    to: Projection,
    scene: Scene,
    elements: Seq<ElementView>,
    k: int,
    element: ElementView,
)
    requires
        is_undrawable(scene, element),
        0 <= k <= elements.len(),
    ensures
        scene_canvas(sem, to, scene, elements.insert(k, element)) == scene_canvas(
            sem,
            to,
            scene,
            elements,
        ),
        forall|a: ImageView, b: ImageView, size: int, aa: bool|
            #[trigger] is_image_of_scene(sem, to, a, scene, elements, size, aa)
                && #[trigger] is_image_of_scene(
                sem,
                to,
                b,
                scene,
                elements.insert(k, element),
                size,
                aa,
            ) ==> a == b,
{
    let more = elements.insert(k, element);
    lemma_without_box(
        sem,
        to,
        scene,
        blank_canvas(scene.size),
        elements,
        k,
        element,
        more.len(),
    );
    let colors = scene_canvas(sem, to, scene, elements).colors;
    assert forall|a: ImageView, b: ImageView, size: int, aa: bool|
        #[trigger] is_image_of_scene(sem, to, a, scene, elements, size, aa)
            && #[trigger] is_image_of_scene(sem, to, b, scene, more, size, aa) implies a == b by {
        lemma_same_image(sem, a, b, colors, size, aa);
    }
}

/// Whether nothing is nothing: no opacity is zero, and zero stays zero when zeros are added, and
/// when it is divided or multiplied on the way to a pixel.
pub open spec fn zero_is_exact(sem: Meaning) -> bool {
    let zero = Single { bits: ZERO };
    &&& opacity(sem, 0) == zero
    &&& plus(sem, zero, zero) == zero
    &&& over(sem, zero, Single { bits: FOUR }) == zero
    &&& times(sem, zero, Single { bits: TWO_HUNDRED_FIFTY_FIVE }) == zero
}

proof fn lemma_blank_average(sem: Meaning)
    requires
        zero_is_exact(sem),
    ensures
        ({
            let none = Rgba { r: 0, g: 0, b: 0, a: 0 };
            averaged(sem, (none, none, none, none)) == none
        }),
{
    let zero = Single { bits: ZERO };
    assert(zero.value() == 0);
    assert(alpha_sum(sem, (0, 0, 0, 0)) == zero);
    assert(zero.rounded() == 0) by {
        vstd::arithmetic::power2::lemma_pow2_pos(149);
        vstd::arithmetic::div_mod::lemma_basic_div(
            units_in_one() as int,
            2 * units_in_one() as int,
        );
    }
}

proof fn lemma_nothing_drawn(
    sem: Meaning,
    to: Projection,
    scene: Scene,
    before: Canvas,
    elements: Seq<ElementView>,
    n: nat,
)
    requires
        n <= elements.len(),
        forall|i: int| 0 <= i < elements.len() ==> is_undrawable(scene, #[trigger] elements[i]),
    ensures
        elements_drawn(sem, to, scene, before, elements, n) == before,
    decreases n,
{
    if n > 0 {
        lemma_nothing_drawn(sem, to, scene, before, elements, (n - 1) as nat);
        let element = elements[n - 1];
        lemma_no_face_drawn(sem, to, scene, before, element, element.faces.len());
    }
}

/// Where there are no boxes, or none of their faces can be drawn, the canvas stays blank, and
/// every pixel of the image is transparent.
pub proof fn law_empty_scene_is_transparent(
    sem: Meaning,
    to: Projection,
    scene: Scene,
    elements: Seq<ElementView>,
    image: ImageView,
    target_size: int,
    use_aa: bool,
    x: int,
    y: int,
)
    requires
        zero_is_exact(sem),
        forall|i: int| 0 <= i < elements.len() ==> is_undrawable(scene, #[trigger] elements[i]),
        scene.size == target_size * canvas_scale(use_aa),
        is_image_of_scene(sem, to, image, scene, elements, target_size, use_aa),
        image.has(x, y),
    ensures
        scene_canvas(sem, to, scene, elements) == blank_canvas(scene.size),
        image.pixel(x, y) == (Rgba { r: 0, g: 0, b: 0, a: 0 }),
{
    lemma_nothing_drawn(sem, to, scene, blank_canvas(scene.size), elements, elements.len());
    lemma_blank_average(sem);
    let n = target_size;
    let colors = blank_canvas(scene.size).colors;
    assert(unpacked(0) == (Rgba { r: 0, g: 0, b: 0, a: 0 }));
    if use_aa {
        lemma_cell(2 * n, 2 * n, 2 * x, 2 * y);
        lemma_cell(2 * n, 2 * n, 2 * x + 1, 2 * y);
        lemma_cell(2 * n, 2 * n, 2 * x, 2 * y + 1);
        lemma_cell(2 * n, 2 * n, 2 * x + 1, 2 * y + 1);
    } else {
        lemma_cell(n, n, x, y);
    }
    assert(image.pixel(x, y) == image_pixel(sem, colors, n, use_aa, x, y));
}

/// A texture whose frames show the squares of an image has pixels to show at any time, where the
/// image has some width and there are frames.
pub proof fn law_textures_can_be_drawn(
    sem: Meaning,
    image: ImageView,
    all: Seq<Shot>,
    texture: TextureView,
    index: int,
)
    requires
        shows(sem, image, all, texture.frames),
        image.width > 0,
        all.len() > 0,
    ensures
        shows_pixels(texture, index),
{
    let n = texture.frames.len() as int;
    vstd::arithmetic::div_mod::lemma_mod_bound(index, n);
    law_frames_are_squares(sem, image, all, texture.frames, index % n);
}

/// Frames at which each texture shows the same give the same canvas: once all textures have
/// started over, so has the animation, and textures without animation need one frame only.
pub proof fn law_animation_starts_over(
    sem: Meaning,
    to: Projection,
    scene: Scene,
    later: Scene,
    elements: Seq<ElementView>,
)
    requires
        later == (Scene { frame_index: later.frame_index, ..scene }),
        forall|file: Seq<char>| #[trigger]
            scene.cache.dom().contains(file) ==> later.frame_index
                % scene.cache[file].frames.len() as int == scene.frame_index
                % scene.cache[file].frames.len() as int,
    ensures
        scene_canvas(sem, to, later, elements) == scene_canvas(sem, to, scene, elements),
{
    lemma_elements_start_over(
        sem,
        to,
        scene,
        later,
        blank_canvas(scene.size),
        elements,
        elements.len(),
    );
}

proof fn lemma_elements_start_over(
    sem: Meaning,
    to: Projection,
    scene: Scene,
    later: Scene,
    before: Canvas,
    elements: Seq<ElementView>,
    n: nat,
)
    requires
        later == (Scene { frame_index: later.frame_index, ..scene }),
        forall|file: Seq<char>| #[trigger]
            scene.cache.dom().contains(file) ==> later.frame_index
                % scene.cache[file].frames.len() as int == scene.frame_index
                % scene.cache[file].frames.len() as int,
    ensures
        elements_drawn(sem, to, later, before, elements, n) == elements_drawn(
            sem,
            to,
            scene,
            before,
            elements,
            n,
        ),
    decreases n,
{
    if n > 0 {
        let m = (n - 1) as nat;
        lemma_elements_start_over(sem, to, scene, later, before, elements, m);
        let earlier = elements_drawn(sem, to, scene, before, elements, m);
        let element = elements[n - 1];
        lemma_faces_start_over(sem, to, scene, later, earlier, element, element.faces.len());
    }
}

proof fn lemma_faces_start_over(
    sem: Meaning,
    to: Projection,
    scene: Scene,
    later: Scene,
    before: Canvas,
    element: ElementView,
    n: nat,
)
    requires
        later == (Scene { frame_index: later.frame_index, ..scene }),
        forall|file: Seq<char>| #[trigger]
            scene.cache.dom().contains(file) ==> later.frame_index
                % scene.cache[file].frames.len() as int == scene.frame_index
                % scene.cache[file].frames.len() as int,
    ensures
        faces_drawn(sem, to, later, before, element, n) == faces_drawn(
            sem,
            to,
            scene,
            before,
            element,
            n,
        ),
    decreases n,
{
    if n > 0 {
        lemma_faces_start_over(sem, to, scene, later, before, element, (n - 1) as nat);
    }
}

}
