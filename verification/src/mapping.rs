//! How a texture lies on the faces of a box.
use crate::arith::{over, Meaning};
use crate::model::{ElementView, FaceView};
use crate::raster::Vertex;
use crate::render::{
    brightness_of, corner_point, corners_of, face_vertices, side_named, Corner, Projection, Side,
};
use crate::single::{Single, ONE, SIXTEEN, ZERO};
use vstd::prelude::*;

verus! {

/// The name of a side.
pub open spec fn name_of(side: Side) -> Seq<char> {
    match side {
        Side::Down => "down"@,
        Side::Up => "up"@,
        Side::North => "north"@,
        Side::South => "south"@,
        Side::West => "west"@,
        Side::East => "east"@,
    }
}

/// Each side has its name, and no other name is that of a side.
pub proof fn law_sides_have_their_names(name: Seq<char>, side: Side)
    ensures
        side_named(name) == Some(side) <==> name == name_of(side),
{
    reveal_strlit("down");
    reveal_strlit("up");
    reveal_strlit("north");
    reveal_strlit("south");
    reveal_strlit("west");
    reveal_strlit("east");
    assert("down"@.len() == 4 && "up"@.len() == 2 && "north"@.len() == 5 && "south"@.len() == 5);
    assert("west"@.len() == 4 && "east"@.len() == 4);
    assert("down"@[0] == 'd' && "west"@[0] == 'w' && "east"@[0] == 'e');
    assert("north"@[0] == 'n' && "south"@[0] == 's');
}

/// A direction along the axes.
pub struct Direction {
    pub x: int,
    pub y: int,
    pub z: int,
}

/// The way from one corner to another.
pub open spec fn way(from: Corner, to: Corner) -> Direction {
    let at = |far: bool|
        if far {
            1int
        } else {
            0int
        };
    Direction { x: at(to.x) - at(from.x), y: at(to.y) - at(from.y), z: at(to.z) - at(from.z) }
}

/// The cross product of two directions.
pub open spec fn cross(a: Direction, b: Direction) -> Direction {
    Direction {
        x: a.y * b.z - a.z * b.y,
        y: a.z * b.x - a.x * b.z,
        z: a.x * b.y - a.y * b.x,
    }
}

/// The direction in which one looks away from the box at a side. North is where `z` is less,
/// west is where `x` is less.
pub open spec fn outward(side: Side) -> Direction {
    match side {
        Side::Down => Direction { x: 0, y: -1, z: 0 },
        Side::Up => Direction { x: 0, y: 1, z: 0 },
        Side::North => Direction { x: 0, y: 0, z: -1 },
        Side::South => Direction { x: 0, y: 0, z: 1 },
        Side::West => Direction { x: -1, y: 0, z: 0 },
        Side::East => Direction { x: 1, y: 0, z: 0 },
    }
}

/// A texture is not mirrored on any side: from outside, the second corner lies to the right of
/// the first, the third below it, and the fourth across. The upper corners of an upright side are
/// upper ones of the box; on the top the upper edge lies in the north, on the bottom in the south.
pub proof fn law_textures_are_not_mirrored(side: Side)
    ensures
        ({
            let c = corners_of(side);
            &&& cross(way(c.0, c.1), way(c.2, c.0)) == outward(side)
            &&& way(c.0, c.1) == way(c.2, c.3)
            &&& outward(side).y == 0 ==> c.0.y && c.1.y && !c.2.y && !c.3.y
            &&& side == Side::Up ==> !c.0.z && !c.1.z && c.2.z && c.3.z
            &&& side == Side::Down ==> c.0.z && c.1.z && !c.2.z && !c.3.z
            &&& outward(side).x == 1 ==> c.0.x && c.3.x
            &&& outward(side).x == -1 ==> !c.0.x && !c.3.x
            &&& outward(side).y == 1 ==> c.0.y && c.3.y
            &&& outward(side).y == -1 ==> !c.0.y && !c.3.y
            &&& outward(side).z == 1 ==> c.0.z && c.3.z
            &&& outward(side).z == -1 ==> !c.0.z && !c.3.z
        }),
{
    let c = corners_of(side);
    let across = way(c.0, c.1);
    let up = way(c.2, c.0);
    let (east, top, south) = (
        Direction { x: 1, y: 0, z: 0 },
        Direction { x: 0, y: 1, z: 0 },
        Direction { x: 0, y: 0, z: 1 },
    );
    match side {
        Side::North => {
            assert(across == (Direction { x: -1, y: 0, z: 0 }) && up == top);
            assert(cross(Direction { x: -1, y: 0, z: 0 }, top) == outward(side));
        },
        Side::South => {
            assert(across == east && up == top);
            assert(cross(east, top) == outward(side));
        },
        Side::West => {
            assert(across == south && up == top);
            assert(cross(south, top) == outward(side));
        },
        Side::East => {
            assert(across == (Direction { x: 0, y: 0, z: -1 }) && up == top);
            assert(cross(Direction { x: 0, y: 0, z: -1 }, top) == outward(side));
        },
        Side::Up => {
            assert(across == east && up == (Direction { x: 0, y: 0, z: -1 }));
            assert(cross(east, Direction { x: 0, y: 0, z: -1 }) == outward(side));
        },
        Side::Down => {
            assert(across == east && up == south);
            assert(cross(east, south) == outward(side));
        },
    }
}

/// The top is brightest, then north and south, then west and east, and the bottom is darkest;
/// opposite upright sides are alike. Without shade all are as bright as the texture.
pub proof fn law_light_comes_from_above(side: Side)
    ensures
        brightness_of(side, false) == (Single { bits: ONE }),
        brightness_of(Side::Up, true) == (Single { bits: ONE }),
        brightness_of(Side::North, true) == brightness_of(Side::South, true),
        brightness_of(Side::West, true) == brightness_of(Side::East, true),
        brightness_of(Side::Down, true).lt(brightness_of(Side::West, true)),
        brightness_of(Side::West, true).lt(brightness_of(Side::North, true)),
        brightness_of(Side::North, true).lt(brightness_of(Side::Up, true)),
{
    let down = brightness_of(Side::Down, true);
    let west = brightness_of(Side::West, true);
    let north = brightness_of(Side::North, true);
    let up = brightness_of(Side::Up, true);
    crate::single::lemma_units_increase(down.magnitude(), west.magnitude());
    crate::single::lemma_units_increase(west.magnitude(), north.magnitude());
    crate::single::lemma_units_increase(north.magnitude(), up.magnitude());
}

/// Whether the corners of a face show the given points of the texture, in sixteenths: upper left,
/// upper right, lower left and lower right.
pub open spec fn shows_points(
    sem: Meaning,
    v: (Vertex, Vertex, Vertex, Vertex),
    upper_left: (Single, Single),
    upper_right: (Single, Single),
    lower_left: (Single, Single),
    lower_right: (Single, Single),
) -> bool {
    let at = |corner: Vertex, point: (Single, Single)|
        corner.u == over(sem, point.0, Single { bits: SIXTEEN }) && corner.v == over(
            sem,
            point.1,
            Single { bits: SIXTEEN },
        );
    at(v.0, upper_left) && at(v.1, upper_right) && at(v.2, lower_left) && at(v.3, lower_right)
}

/// A face shows the part of the texture from its left to its right and from its top to its
/// bottom edge, turned clockwise by as many right angles as its rotation has, counted round.
/// Without a part it shows all of it; without a rotation, or with a negative one, it is not turned.
pub proof fn law_face_shows_its_part(
    sem: Meaning,
    to: Projection,
    element: ElementView,
    side: Side,
    face: FaceView,
    size: nat,
    left: Single,
    top: Single,
    right: Single,
    bottom: Single,
    circles: int,
    rest: int,
)
    requires
        face.uv is None ==> left.bits == ZERO && top.bits == ZERO && right.bits == SIXTEEN
            && bottom.bits == SIXTEEN,
        face.uv matches Some(part) ==> part[0] == left && part[1] == top && part[2] == right
            && part[3] == bottom,
        0 <= circles,
        0 <= rest < 90,
    ensures
        ({
            let v = face_vertices(sem, to, element, side, face, size);
            let (ul, ur, ll, lr) = ((left, top), (right, top), (left, bottom), (right, bottom));
            let degrees = match face.rotation {
                Some(d) if d > 0 => d as int,
                _ => 0,
            };
            &&& degrees == 360 * circles + rest ==> shows_points(sem, v, ul, ur, ll, lr)
            &&& degrees == 360 * circles + 90 + rest ==> shows_points(sem, v, ll, ul, lr, ur)
            &&& degrees == 360 * circles + 180 + rest ==> shows_points(sem, v, lr, ll, ur, ul)
            &&& degrees == 360 * circles + 270 + rest ==> shows_points(sem, v, ur, lr, ul, ll)
        }),
{
    reveal_with_fuel(crate::render::turned_by, 5);
}

/// Turning a part upside down by its top and bottom turns the texture upside down: what the upper
/// corners showed, the lower ones show.
pub proof fn law_swapped_edges_swap_corners(
    sem: Meaning,
    to: Projection,
    element: ElementView,
    side: Side,
    texture: Seq<char>,
    part: [Single; 4],
    flipped: [Single; 4],
    mirrored: [Single; 4],
    size: nat,
)
    requires
        flipped[0] == part[0] && flipped[1] == part[3] && flipped[2] == part[2] && flipped[3]
            == part[1],
        mirrored[0] == part[2] && mirrored[1] == part[1] && mirrored[2] == part[0] && mirrored[3]
            == part[3],
    ensures
        ({
            let shown = |uv: [Single; 4]|
                face_vertices(
                    sem,
                    to,
                    element,
                    side,
                    FaceView { texture, uv: Some(uv), rotation: None },
                    size,
                );
            let same = |a: Vertex, b: Vertex| a.u == b.u && a.v == b.v;
            let (a, b, c) = (shown(part), shown(flipped), shown(mirrored));
            &&& same(a.0, b.2) && same(a.2, b.0) && same(a.1, b.3) && same(a.3, b.1)
            &&& same(a.0, c.1) && same(a.1, c.0) && same(a.2, c.3) && same(a.3, c.2)
            &&& a.0.v == a.1.v && a.2.v == a.3.v && a.0.u == a.2.u && a.1.u == a.3.u
        }),
{
    reveal_with_fuel(crate::render::turned_by, 2);
}

/// The corners of a face lie where the projection takes the corners of the box on that side, and
/// are all as bright as the side is. Turning or changing the texture does not move them.
pub proof fn law_texture_does_not_move_corners(
    sem: Meaning,
    to: Projection,
    element: ElementView,
    side: Side,
    face: FaceView,
    other: FaceView,
    size: nat,
)
    ensures
        ({
            let a = face_vertices(sem, to, element, side, face, size);
            let b = face_vertices(sem, to, element, side, other, size);
            let same = |v: Vertex, w: Vertex|
                v.x == w.x && v.y == w.y && v.z == w.z && v.brightness == w.brightness;
            &&& same(a.0, b.0) && same(a.1, b.1) && same(a.2, b.2) && same(a.3, b.3)
            &&& a.0.brightness == brightness_of(side, element.shade != Some(false))
            &&& a.1.brightness == a.0.brightness && a.2.brightness == a.0.brightness
                && a.3.brightness == a.0.brightness
        }),
{
}

/// The depth of a corner is that of its point, divided by the last coordinate.
pub proof fn law_corners_have_the_depth_of_their_points(
    sem: Meaning,
    to: Projection,
    element: ElementView,
    side: Side,
    face: FaceView,
    size: nat,
)
    ensures
        ({
            let v = face_vertices(sem, to, element, side, face, size);
            let c = corners_of(side);
            let depth = |corner: Corner|
                {
                    let seen = to(corner_point(sem, element.from, element.to, corner));
                    over(sem, seen.z, seen.w)
                };
            v.0.z == depth(c.0) && v.1.z == depth(c.1) && v.2.z == depth(c.2) && v.3.z == depth(
                c.3,
            )
        }),
{
}

}
