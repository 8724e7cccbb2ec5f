//! Triangles, faces, images of models, and the window on them.

use mc_renderer::animation::AnimatedTexture;
use mc_renderer::arith::Operation;
use mc_renderer::json::JsonValue;
use mc_renderer::model::{DisplayTransform, ModelElement, ModelFace};
use mc_renderer::name_map::NameMap;
use mc_renderer::pixels::{Rgba, RgbaImage};
use mc_renderer::raster::{compute_opacity, draw_triangle, pack, unpack, Vertex};
use mc_renderer::render::{
    can_render, can_render_frame, can_size, corner_of, render_frames, render_single_frame, Corner, Point, Projected,
    Side,
};
use mc_renderer::single::Single;
use mc_renderer::view::{find_bounds, fit_window, place_model};

fn single(x: f32) -> Single {
    Single { bits: x.to_bits() }
}

fn float(x: Single) -> f32 {
    f32::from_bits(x.bits)
}

fn arith(op: Operation) -> Single {
    single(match op {
        Operation::Add(a, b) => float(a) + float(b),
        Operation::Subtract(a, b) => float(a) - float(b),
        Operation::Multiply(a, b) => float(a) * float(b),
        Operation::Divide(a, b) => float(a) / float(b),
        Operation::Convert(n) => n as f32,
    })
}

fn vertex(x: f32, y: f32, z: f32, u: f32, v: f32, brightness: f32) -> Vertex {
    Vertex {
        x: single(x),
        y: single(y),
        z: single(z),
        u: single(u),
        v: single(v),
        brightness: single(brightness),
    }
}

fn image(width: u32, pixels: &[[u8; 4]]) -> RgbaImage {
    let height = pixels.len() as u32 / width;
    RgbaImage::from_raw(width, height, pixels.concat()).unwrap()
}

/// A triangle over the upper left half of a canvas that is four wide and high.
fn half(z: f32, brightness: f32) -> [Vertex; 3] {
    [
        vertex(0.0, 0.0, z, 0.0, 0.0, brightness),
        vertex(4.0, 0.0, z, 1.0, 0.0, brightness),
        vertex(0.0, 4.0, z, 0.0, 1.0, brightness),
    ]
}

fn blank(n: usize) -> (Vec<u32>, Vec<Single>) {
    (vec![0; n], vec![single(f32::MAX); n])
}

fn draw(fb: &mut Vec<u32>, zb: &mut Vec<Single>, t: [Vertex; 3], tex: &RgbaImage) {
    draw_triangle(fb, zb, 4, 4, t[0], t[1], t[2], tex, &arith);
}

#[test]
fn channels_are_packed_and_unpacked() {
    let p = Rgba { r: 0x12, g: 0x34, b: 0x56, a: 0x78 };
    assert_eq!(pack(p), 0x7812_3456);
    assert_eq!(unpack(0x7812_3456), p);
    for color in [0, 1, 0xFF, 0xFF00, 0xFF_0000, 0xFF00_0000, u32::MAX, 0xDEAD_BEEF] {
        assert_eq!(pack(unpack(color)), color);
    }
}

#[test]
fn opacity_is_a_part_of_one() {
    assert_eq!(compute_opacity(&arith, 255), single(1.0));
    assert_eq!(compute_opacity(&arith, 0), single(0.0));
    assert_eq!(compute_opacity(&arith, 51), single(51.0 / 255.0));
}

#[test]
fn a_triangle_covers_the_pixels_in_it() {
    let (mut fb, mut zb) = blank(16);
    let tex = image(1, &[[200, 100, 50, 255]]);
    draw(&mut fb, &mut zb, half(0.5, 0.5), &tex);
    for y in 0..4 {
        for x in 0..4 {
            let covered = x + y <= 3;
            assert_eq!(fb[y * 4 + x], if covered { 0xFF64_3219 } else { 0 });
            assert_eq!(zb[y * 4 + x], single(if covered { 0.5 } else { f32::MAX }));
        }
    }
}

#[test]
fn corners_may_go_round_either_way() {
    let tex = image(2, &[[1, 2, 3, 255], [4, 5, 6, 255], [7, 8, 9, 255], [10, 11, 12, 255]]);
    let t = half(0.25, 1.0);
    let (mut fb, mut zb) = blank(16);
    draw(&mut fb, &mut zb, t, &tex);
    let (mut other_fb, mut other_zb) = blank(16);
    draw(&mut other_fb, &mut other_zb, [t[0], t[2], t[1]], &tex);
    assert_eq!(fb, other_fb);
    assert_eq!(zb, other_zb);
    assert_eq!(fb[0], 0xFF01_0203);
    assert_eq!(fb[3], 0xFF04_0506);
    assert_eq!(fb[12], 0xFF07_0809);
}

#[test]
fn what_is_nearer_hides_what_is_farther() {
    let (mut fb, mut zb) = blank(16);
    let near = image(1, &[[10, 20, 30, 255]]);
    let far = image(1, &[[40, 50, 60, 255]]);
    draw(&mut fb, &mut zb, half(0.5, 1.0), &near);
    draw(&mut fb, &mut zb, half(0.75, 1.0), &far);
    draw(&mut fb, &mut zb, half(0.5, 1.0), &far);
    assert_eq!(fb[0], 0xFF0A_141E);
    assert_eq!(zb[0], single(0.5));
    draw(&mut fb, &mut zb, half(0.25, 1.0), &far);
    assert_eq!(fb[0], 0xFF28_323C);
    assert_eq!(zb[0], single(0.25));
}

#[test]
fn what_is_not_opaque_is_laid_over() {
    let (mut fb, mut zb) = blank(16);
    draw(&mut fb, &mut zb, half(0.5, 1.0), &image(1, &[[100, 0, 200, 255]]));
    draw(&mut fb, &mut zb, half(0.25, 1.0), &image(1, &[[10, 255, 0, 128]]));
    let a = 128.0f32 / 255.0;
    let mix = |top: f32, below: f32| ((top * a + below * (1.0 - a)) / (a + (1.0 - a))) as u8;
    assert_eq!(
        unpack(fb[0]),
        Rgba { r: mix(10.0, 100.0), g: mix(255.0, 0.0), b: mix(0.0, 200.0), a: 255 }
    );
    assert_eq!(zb[0], single(0.5));
    let (mut alone, mut depth) = blank(16);
    draw(&mut alone, &mut depth, half(0.25, 1.0), &image(1, &[[10, 255, 0, 128]]));
    let only = |top: f32| (top * a / a) as u8;
    assert_eq!(
        unpack(alone[0]),
        Rgba { r: only(10.0), g: only(255.0), b: 0, a: (a * 255.0) as u8 }
    );
    assert_eq!(depth[0], single(f32::MAX));
}

#[test]
fn what_can_hardly_be_seen_is_left_out() {
    for (alpha, seen) in [(0, false), (1, false), (2, false), (3, true)] {
        let (mut fb, mut zb) = blank(16);
        draw(&mut fb, &mut zb, half(0.5, 1.0), &image(1, &[[255, 255, 255, alpha]]));
        assert_eq!(fb[0] != 0, seen, "{alpha}");
        assert_eq!(zb[0], single(f32::MAX));
    }
}

#[test]
fn a_triangle_without_area_is_not_drawn() {
    let (mut fb, mut zb) = blank(16);
    let tex = image(1, &[[1, 1, 1, 255]]);
    let line = [
        vertex(0.0, 0.0, 0.0, 0.0, 0.0, 1.0),
        vertex(2.0, 2.0, 0.0, 0.0, 0.0, 1.0),
        vertex(4.0, 4.0, 0.0, 0.0, 0.0, 1.0),
    ];
    draw(&mut fb, &mut zb, line, &tex);
    let (mut no_colors, mut no_depths) = (vec![7], vec![]);
    let no_texture = RgbaImage::new(0, 0);
    draw_triangle(
        &mut no_colors,
        &mut no_depths,
        9,
        9,
        line[0],
        line[1],
        line[2],
        &no_texture,
        &arith,
    );
    assert_eq!((no_colors, no_depths), (vec![7], vec![]));
    let lost = [
        vertex(f32::NAN, 0.0, 0.0, 0.0, 0.0, 1.0),
        vertex(4.0, 0.0, 0.0, 0.0, 0.0, 1.0),
        vertex(0.0, 4.0, 0.0, 0.0, 0.0, 1.0),
    ];
    draw(&mut fb, &mut zb, lost, &tex);
    assert_eq!(fb, vec![0; 16]);
}

#[test]
fn what_lies_outside_the_canvas_is_cut_off() {
    let tex = image(1, &[[1, 2, 3, 255]]);
    let (mut fb, mut zb) = blank(16);
    let large = [
        vertex(-100.0, -100.0, 0.0, 0.0, 0.0, 1.0),
        vertex(300.0, -100.0, 0.0, 0.0, 0.0, 1.0),
        vertex(-100.0, 300.0, 0.0, 0.0, 0.0, 1.0),
    ];
    draw(&mut fb, &mut zb, large, &tex);
    assert_eq!(fb, vec![0xFF01_0203; 16]);
    let (mut fb, mut zb) = blank(16);
    let beside = [
        vertex(10.0, 0.0, 0.0, 0.0, 0.0, 1.0),
        vertex(20.0, 0.0, 0.0, 0.0, 0.0, 1.0),
        vertex(10.0, 10.0, 0.0, 0.0, 0.0, 1.0),
    ];
    draw(&mut fb, &mut zb, beside, &tex);
    assert_eq!(fb, vec![0; 16]);
    let mut none: Vec<u32> = vec![];
    let mut no_depth: Vec<Single> = vec![];
    draw_triangle(&mut none, &mut no_depth, 0, 0, large[0], large[1], large[2], &tex, &arith);
}

#[test]
fn texels_beyond_the_texture_are_those_at_its_edge() {
    let tex = image(2, &[[1, 0, 0, 255], [2, 0, 0, 255]]);
    let (mut fb, mut zb) = blank(16);
    let far = |x: f32, y: f32| vertex(x, y, 0.0, 9.0, -3.0, 1.0);
    draw(&mut fb, &mut zb, [far(0.0, 0.0), far(4.0, 0.0), far(0.0, 4.0)], &tex);
    assert_eq!(fb[0], 0xFF02_0000);
    let (mut fb, mut zb) = blank(16);
    let early = |x: f32, y: f32| vertex(x, y, 0.0, -9.0, f32::NAN, 1.0);
    draw(&mut fb, &mut zb, [early(0.0, 0.0), early(4.0, 0.0), early(0.0, 4.0)], &tex);
    assert_eq!(fb[0], 0xFF01_0000);
}

fn element(from: [f32; 3], to: [f32; 3], shade: Option<bool>, faces: Vec<(&str, ModelFace)>) -> ModelElement {
    let mut map = NameMap::new();
    for (name, face) in faces {
        map.insert(name.to_string(), face);
    }
    ModelElement {
        from: from.map(single),
        to: to.map(single),
        shade,
        faces: map,
    }
}

fn face(rotation: Option<i32>, uv: Option<[f32; 4]>) -> ModelFace {
    ModelFace {
        texture: "#all".to_string(),
        uv: uv.map(|part| part.map(single)),
        rotation,
    }
}

fn block(name: &str, shade: Option<bool>, face: ModelFace) -> Vec<ModelElement> {
    vec![element([0.0; 3], [16.0; 3], shade, vec![(name, face)])]
}

fn all_stone() -> NameMap<JsonValue> {
    let mut map = NameMap::new();
    map.insert("all".to_string(), JsonValue::Text("minecraft:block/stone".to_string()));
    map
}

fn cached(frames: Vec<RgbaImage>) -> NameMap<AnimatedTexture> {
    let frame_delays_ms = vec![50; frames.len()];
    let mut cache = NameMap::new();
    cache.insert(
        "stone".to_string(),
        AnimatedTexture {
            frames,
            frame_delays_ms,
        },
    );
    cache
}

/// Looks north at a block that fills the window.
fn look_north(p: Point) -> Projected {
    Projected {
        x: single(2.0 * float(p.x)),
        y: single(2.0 * float(p.y)),
        z: single(0.5 - 0.5 * float(p.z)),
        w: single(1.0),
    }
}

/// Looks down at a block that fills the window, from twice as far as it is near.
fn look_down(p: Point) -> Projected {
    Projected {
        x: single(4.0 * float(p.x)),
        y: single(-4.0 * float(p.z)),
        z: single(1.0 - float(p.y)),
        w: single(2.0),
    }
}

fn quarters() -> RgbaImage {
    image(
        2,
        &[[100, 0, 0, 255], [0, 50, 0, 255], [0, 0, 200, 255], [10, 20, 30, 255]],
    )
}

fn pixels(image: &RgbaImage) -> Vec<[u8; 4]> {
    image.as_raw().chunks(4).map(|p| [p[0], p[1], p[2], p[3]]).collect()
}

fn render(
    elements: &Vec<ModelElement>,
    cache: &NameMap<AnimatedTexture>,
    size: usize,
    use_aa: bool,
) -> Vec<[u8; 4]> {
    assert!(can_size(size, use_aa));
    assert!(can_render_frame(elements, &all_stone(), cache, 0));
    pixels(&render_single_frame(
        elements,
        &all_stone(),
        cache,
        &look_north,
        0,
        size,
        use_aa,
        &arith,
    ))
}

#[test]
fn a_face_shows_its_texture() {
    let elements = block("south", Some(false), face(None, None));
    let shown = render(&elements, &cached(vec![quarters()]), 2, false);
    assert_eq!(shown, pixels(&quarters()));
}

#[test]
fn a_shaded_face_is_darker() {
    let elements = block("south", None, face(None, None));
    let shown = render(&elements, &cached(vec![quarters()]), 2, false);
    assert_eq!(
        shown,
        vec![[80, 0, 0, 255], [0, 40, 0, 255], [0, 0, 160, 255], [8, 16, 24, 255]]
    );
    let also = block("south", Some(true), face(None, None));
    assert_eq!(render(&also, &cached(vec![quarters()]), 2, false), shown);
}

#[test]
fn sides_differ_in_brightness() {
    for (name, expected) in [
        ("down", 0.5f32),
        ("up", 1.0),
        ("north", 0.8),
        ("south", 0.8),
        ("west", 0.6),
        ("east", 0.6),
    ] {
        let side = Side::from_name(name).unwrap();
        assert_eq!(side.brightness(true), single(expected));
        assert_eq!(side.brightness(false), single(1.0));
    }
    assert_eq!(Side::from_name("top"), None);
    assert_eq!(Side::from_name("North"), None);
}

#[test]
fn a_texture_is_turned_by_quarters() {
    let [a, b, c, d] = [[100, 0, 0, 255], [0, 50, 0, 255], [0, 0, 200, 255], [10, 20, 30, 255]];
    for (degrees, expected) in [
        (0, [a, b, c, d]),
        (90, [c, a, d, b]),
        (180, [d, c, b, a]),
        (270, [b, d, a, c]),
        (360, [a, b, c, d]),
        (450, [c, a, d, b]),
        (89, [a, b, c, d]),
        (-90, [a, b, c, d]),
        (i32::MIN, [a, b, c, d]),
    ] {
        let elements = block("south", Some(false), face(Some(degrees), None));
        let shown = render(&elements, &cached(vec![quarters()]), 2, false);
        assert_eq!(shown, expected, "{degrees}");
    }
}

#[test]
fn a_face_shows_a_part_of_its_texture() {
    let right = face(None, Some([8.0, 0.0, 16.0, 16.0]));
    let shown = render(&block("south", Some(false), right), &cached(vec![quarters()]), 2, false);
    let (b, d) = ([0, 50, 0, 255], [10, 20, 30, 255]);
    assert_eq!(shown, vec![b, b, d, d]);
    let mirrored = face(None, Some([16.0, 0.0, 0.0, 16.0]));
    let shown = render(&block("south", Some(false), mirrored), &cached(vec![quarters()]), 2, false);
    assert_eq!(shown, vec![b, [100, 0, 0, 255], d, [0, 0, 200, 255]]);
}

#[test]
fn smoothing_averages_four_pixels() {
    let elements = block("south", Some(false), face(None, None));
    let tex = image(
        2,
        &[[100, 1, 0, 255], [50, 1, 0, 255], [0, 0, 0, 255], [200, 0, 3, 255]],
    );
    let shown = render(&elements, &cached(vec![tex]), 1, true);
    assert_eq!(shown, vec![[88, 1, 1, 255]]);
}

#[test]
fn smoothing_weighs_by_opacity() {
    let elements = block("south", Some(false), face(None, None));
    let tex = image(
        2,
        &[[240, 100, 7, 255], [9, 9, 9, 0], [9, 9, 9, 0], [9, 9, 9, 0]],
    );
    assert_eq!(render(&elements, &cached(vec![tex]), 1, true), vec![[240, 100, 7, 64]]);
    let clear = image(1, &[[9, 9, 9, 0]]);
    assert_eq!(render(&elements, &cached(vec![clear]), 1, true), vec![[0, 0, 0, 0]]);
}

#[test]
fn nothing_is_drawn_without_texture_or_side() {
    let empty: NameMap<AnimatedTexture> = NameMap::new();
    let elements = block("south", None, face(None, None));
    assert_eq!(render(&elements, &empty, 2, true), vec![[0; 4]; 4]);
    let odd = block("front", None, face(None, None));
    assert_eq!(render(&odd, &cached(vec![quarters()]), 2, false), vec![[0; 4]; 4]);
    assert_eq!(render(&vec![], &cached(vec![quarters()]), 0, true), Vec::<[u8; 4]>::new());
}

#[test]
fn the_nearer_face_is_seen_whatever_comes_first() {
    let other = |texture: &str| ModelFace { texture: texture.to_string(), uv: None, rotation: None };
    let mut cache = cached(vec![image(1, &[[1, 1, 1, 255]])]);
    cache.insert(
        "back".to_string(),
        AnimatedTexture {
            frames: vec![image(1, &[[2, 2, 2, 255]])],
            frame_delays_ms: vec![50],
        },
    );
    for faces in [
        vec![("south", other("stone")), ("north", other("back"))],
        vec![("north", other("back")), ("south", other("stone"))],
    ] {
        let elements = vec![element([0.0; 3], [16.0; 3], Some(false), faces)];
        assert_eq!(render(&elements, &cache, 1, false), vec![[1, 1, 1, 255]]);
    }
}

#[test]
fn coordinates_are_divided_by_the_last() {
    let elements = block("up", Some(false), face(None, None));
    let shown = render_single_frame(
        &elements,
        &all_stone(),
        &cached(vec![quarters()]),
        &look_down,
        0,
        2,
        false,
        &arith,
    );
    assert_eq!(pixels(&shown), pixels(&quarters()));
}

#[test]
fn a_small_box_covers_a_part() {
    let elements = vec![element(
        [8.0, 0.0, 0.0],
        [16.0, 8.0, 16.0],
        Some(false),
        vec![("south", face(None, None))],
    )];
    let shown = render(&elements, &cached(vec![image(1, &[[5, 6, 7, 255]])]), 2, false);
    assert_eq!(shown, vec![[0; 4], [0; 4], [0; 4], [5, 6, 7, 255]]);
}

#[test]
fn each_frame_has_its_image_and_the_first_follows_the_last() {
    let elements = block("south", Some(false), face(None, None));
    let first = [1, 2, 3, 255];
    let second = [4, 5, 6, 255];
    let cache = cached(vec![image(1, &[first]), image(1, &[second])]);
    let images = |frames: usize| -> Vec<Vec<[u8; 4]>> {
        render_frames(
            &elements,
            &all_stone(),
            &cache,
            &look_north,
            frames,
            1,
            true,
            &arith,
        )
        .iter()
        .map(pixels)
        .collect()
    };
    assert_eq!(images(3), vec![vec![first], vec![second], vec![first]]);
    assert_eq!(images(1), vec![vec![first]]);
    assert_eq!(images(0), vec![vec![first]]);
}

#[test]
fn what_cannot_be_rendered_is_known_before() {
    let elements = block("south", None, face(None, None));
    assert!(can_render(&elements, &all_stone(), &cached(vec![quarters()]), 3));
    assert!(!can_render(&elements, &all_stone(), &cached(vec![]), 1));
    let thin = || cached(vec![quarters(), RgbaImage::new(0, 1)]);
    assert!(can_render(&elements, &all_stone(), &thin(), 0));
    assert!(can_render(&elements, &all_stone(), &thin(), 1));
    assert!(!can_render(&elements, &all_stone(), &thin(), 2));
    assert!(can_render_frame(&elements, &all_stone(), &thin(), 0));
    assert!(!can_render_frame(&elements, &all_stone(), &thin(), 1));
    assert!(can_render_frame(&elements, &all_stone(), &thin(), 2));
    let odd = block("front", None, face(None, None));
    assert!(can_render(&odd, &all_stone(), &thin(), 2));
    assert!(!can_render(&odd, &all_stone(), &cached(vec![]), 1));
    let mut circle = NameMap::new();
    circle.insert("all".to_string(), JsonValue::Text("#all".to_string()));
    assert!(!can_render(&elements, &circle, &cached(vec![quarters()]), 1));
    assert!(can_size(0, true) && can_size(128, true) && can_size(1024, false));
    assert!(!can_size(usize::MAX, false));
    assert!(!can_size(1 << 32, false));
    assert!(!can_size((1 << 32) - 1, true));
}

#[test]
fn sides_have_the_corners_that_lie_on_them() {
    let upper = |c: Corner| c.y;
    for (side, on) in [
        (Side::Up, (|c: Corner| c.y) as fn(Corner) -> bool),
        (Side::Down, |c| !c.y),
        (Side::North, |c| !c.z),
        (Side::South, |c| c.z),
        (Side::West, |c| !c.x),
        (Side::East, |c| c.x),
    ] {
        let (a, b, c, d) = side.corners();
        for corner in [a, b, c, d] {
            assert!(on(corner), "{side:?}");
        }
        assert!(a != b && a != c && a != d && b != c && b != d && c != d);
        if side != Side::Up && side != Side::Down {
            assert!(upper(a) && upper(b) && !upper(c) && !upper(d));
        }
    }
    let (a, b, _, _) = Side::North.corners();
    assert!(a.x && !b.x);
}

#[test]
fn boxes_are_measured_from_the_middle_of_a_block() {
    let from = [0.0, 4.0, 8.0].map(single);
    let to = [16.0, 12.0, 24.0].map(single);
    let p = corner_of(&arith, &from, &to, Corner { x: true, y: false, z: true });
    assert_eq!((float(p.x), float(p.y), float(p.z)), (0.5, -0.25, 1.0));
}

fn three(p: Point) -> [f32; 3] {
    [float(p.x), float(p.y), float(p.z)]
}

#[test]
fn a_model_is_placed_as_in_an_inventory() {
    let mut other = NameMap::new();
    other.insert(
        "head".to_string(),
        DisplayTransform {
            rotation: Some([single(1.0); 3]),
            translation: None,
            scale: None,
        },
    );
    for display in [None, Some(NameMap::new()), Some(other)] {
        let placed = place_model(&display, &arith);
        assert_eq!(three(placed.rotation), [30.0, 225.0, 0.0]);
        assert_eq!(three(placed.translation), [0.0, 0.0, 0.0]);
        assert_eq!(three(placed.scale), [0.625, 0.625, 0.625]);
    }
}

#[test]
fn a_model_may_say_how_it_is_placed() {
    let mut display = NameMap::new();
    display.insert(
        "gui".to_string(),
        DisplayTransform {
            rotation: Some([10.0, 20.0, 30.0].map(single)),
            translation: Some([8.0, -4.0, 16.0].map(single)),
            scale: None,
        },
    );
    let placed = place_model(&Some(display), &arith);
    assert_eq!(three(placed.rotation), [10.0, 20.0, 30.0]);
    assert_eq!(three(placed.translation), [0.5, -0.25, 1.0]);
    assert_eq!(three(placed.scale), [0.625, 0.625, 0.625]);
}

fn plain(p: Point) -> Projected {
    Projected {
        x: p.x,
        y: p.y,
        z: p.z,
        w: single(1.0),
    }
}

#[test]
fn the_window_is_a_square_round_all_boxes() {
    let elements = vec![
        element([0.0; 3], [8.0, 4.0, 16.0], None, vec![]),
        element([8.0, 0.0, 0.0], [16.0, 8.0, 16.0], None, vec![]),
    ];
    let bounds = find_bounds(&elements, &plain, &arith);
    assert_eq!((float(bounds.min_x), float(bounds.max_x)), (-0.5, 0.5));
    assert_eq!((float(bounds.min_y), float(bounds.max_y)), (-0.5, 0.0));
    let window = fit_window(&elements, &plain, &arith);
    assert_eq!((float(window.left), float(window.right)), (-0.5, 0.5));
    assert_eq!((float(window.bottom), float(window.top)), (-0.75, 0.25));
}

#[test]
fn every_corner_counts_for_the_bounds() {
    let slanted = |p: Point| Projected {
        x: single(float(p.x) + 0.25 * float(p.y)),
        y: single(float(p.y) - 0.5 * float(p.z)),
        z: p.z,
        w: single(1.0),
    };
    let elements = vec![element([0.0; 3], [16.0; 3], None, vec![])];
    let bounds = find_bounds(&elements, &slanted, &arith);
    assert_eq!((float(bounds.min_x), float(bounds.max_x)), (-0.625, 0.625));
    assert_eq!((float(bounds.min_y), float(bounds.max_y)), (-0.75, 0.75));
}

#[test]
fn without_boxes_there_are_no_bounds() {
    let bounds = find_bounds(&vec![], &plain, &arith);
    assert_eq!((float(bounds.min_x), float(bounds.min_y)), (f32::MAX, f32::MAX));
    assert_eq!((float(bounds.max_x), float(bounds.max_y)), (f32::MIN, f32::MIN));
}

/// The pixel at `x`, `y` once a triangle is drawn over it, with the numbers of the machine.
fn plain_pixel(t: [Vertex; 3], tex: &RgbaImage, x: usize, y: usize, was: (u32, f32)) -> (u32, f32) {
    let at = |v: Vertex| (float(v.x), float(v.y));
    let edge = |a: (f32, f32), b: (f32, f32), c: (f32, f32)| {
        (c.0 - a.0) * (b.1 - a.1) - (c.1 - a.1) * (b.0 - a.0)
    };
    let signed = edge(at(t[0]), at(t[1]), at(t[2]));
    if signed.abs() < 1e-5 {
        return was;
    }
    let t = if signed < 0.0 { [t[0], t[2], t[1]] } else { t };
    let area = signed.abs();
    let p = (x as f32 + 0.5, y as f32 + 0.5);
    let parts = [
        edge(at(t[1]), at(t[2]), p),
        edge(at(t[2]), at(t[0]), p),
        edge(at(t[0]), at(t[1]), p),
    ];
    if !parts.iter().all(|w| *w >= 0.0) {
        return was;
    }
    let w = parts.map(|part| part / area);
    let sum = |f: fn(Vertex) -> Single| {
        w[0] * float(f(t[0])) + w[1] * float(f(t[1])) + w[2] * float(f(t[2]))
    };
    let z = sum(|v| v.z);
    let tx = ((sum(|v| v.u) * tex.width() as f32) as u32).min(tex.width() - 1);
    let ty = ((sum(|v| v.v) * tex.height() as f32) as u32).min(tex.height() - 1);
    let texel = tex.get_pixel(tx, ty);
    let above = texel.a as f32 / 255.0;
    if !(z < was.1 && above > 0.01) {
        return was;
    }
    let below = unpack(was.0);
    let under = below.a as f32 / 255.0;
    let out = above + under * (1.0 - above);
    let light = float(t[0].brightness);
    let mix = |top: u8, bottom: u8| {
        ((top as f32 * light * above + bottom as f32 * under * (1.0 - above)) / out)
            .clamp(0.0, 255.0) as u8
    };
    let color = Rgba {
        r: mix(texel.r, below.r),
        g: mix(texel.g, below.g),
        b: mix(texel.b, below.b),
        a: (out * 255.0) as u8,
    };
    (pack(color), if texel.a == 255 { z } else { was.1 })
}

#[test]
fn triangles_agree_with_the_numbers_of_the_machine() {
    let mut seed: u32 = 2024;
    let mut next = |n: u32| {
        seed = seed.wrapping_mul(1664525).wrapping_add(1013904223);
        (seed >> 8) % n
    };
    let (mut fb, mut zb) = blank(81);
    let mut expected: Vec<(u32, f32)> = vec![(0, f32::MAX); 81];
    let mut changed = 0;
    for _ in 0..200 {
        let texels: Vec<[u8; 4]> = (0..6)
            .map(|_| {
                let alpha = if next(2) == 0 { 255 } else { next(256) as u8 };
                [next(256) as u8, next(256) as u8, next(256) as u8, alpha]
            })
            .collect();
        let tex = image(3, &texels);
        let brightness = [0.5, 0.6, 0.8, 1.0][next(4) as usize];
        let mut corner = || {
            vertex(
                next(1300) as f32 / 100.0 - 2.0,
                next(1300) as f32 / 100.0 - 2.0,
                next(1000) as f32 / 1000.0,
                next(1000) as f32 / 1000.0,
                next(1000) as f32 / 1000.0,
                brightness,
            )
        };
        let t = [corner(), corner(), corner()];
        draw_triangle(&mut fb, &mut zb, 9, 9, t[0], t[1], t[2], &tex, &arith);
        for y in 0..9 {
            for x in 0..9 {
                let now = plain_pixel(t, &tex, x, y, expected[y * 9 + x]);
                changed += (now.0 != expected[y * 9 + x].0) as usize;
                expected[y * 9 + x] = now;
                assert_eq!(fb[y * 9 + x], now.0);
                assert_eq!(float(zb[y * 9 + x]), now.1);
            }
        }
    }
    assert!(changed > 200);
}

#[test]
fn the_machine_computes_as_the_laws_of_order_ask() {
    let zero = single(0.0);
    let one = single(1.0);
    let times = |a: Single, b: Single| arith(Operation::Multiply(a, b));
    let over = |a: Single, b: Single| arith(Operation::Divide(a, b));
    assert_eq!(compute_opacity(&arith, 255), one);
    assert_eq!(compute_opacity(&arith, 0), zero);
    assert_eq!(arith(Operation::Subtract(one, one)), zero);
    assert_eq!(arith(Operation::Add(zero, zero)), zero);
    assert_eq!(over(zero, single(4.0)), zero);
    assert_eq!(times(zero, single(255.0)), zero);
    for a in 0..=2 {
        assert!(!single(0.01).less(compute_opacity(&arith, a)));
    }
    for a in 0..=255u8 {
        assert_eq!(times(compute_opacity(&arith, a), zero), zero);
        for c in 0..=255u8 {
            let part = times(arith(Operation::Convert(c as u64)), compute_opacity(&arith, a));
            assert_eq!(times(part, zero), zero);
        }
    }
    let alike = |a: Single, b: Single| a == b || a.not_a_number() && b.not_a_number();
    let numbers = [
        0.0,
        -0.0,
        1.0,
        -2.5,
        1e-40,
        3e38,
        -3e38,
        0.1,
        f32::INFINITY,
        f32::NEG_INFINITY,
        f32::NAN,
    ]
    .map(single);
    for a in numbers {
        for b in numbers {
            assert!(alike(arith(Operation::Add(a, b)), arith(Operation::Add(b, a))));
            assert!(alike(times(a, b), times(b, a)));
            let there = arith(Operation::Subtract(a, b));
            let back = arith(Operation::Subtract(b, a));
            assert!(alike(there, back.neg()) || there.is_zero() && back.is_zero());
        }
        for op in [Operation::Add, Operation::Subtract, Operation::Multiply, Operation::Divide] {
            assert!(arith(op(a, single(f32::NAN))).not_a_number());
            assert!(arith(op(single(f32::NAN), a)).not_a_number());
        }
    }
}

fn cut_out() -> RgbaImage {
    image(2, &[[1, 2, 3, 255], [9, 9, 9, 2], [4, 5, 6, 255], [9, 9, 9, 0]])
}

#[test]
fn cut_out_triangles_may_be_drawn_in_either_order_and_twice() {
    let (p, q) = (half(0.5, 1.0), half(0.25, 0.5));
    let tex = cut_out();
    let solid = image(1, &[[70, 80, 90, 255]]);
    let (mut fb, mut zb) = blank(16);
    draw(&mut fb, &mut zb, p, &solid);
    draw(&mut fb, &mut zb, q, &tex);
    let (mut other_fb, mut other_zb) = blank(16);
    draw(&mut other_fb, &mut other_zb, q, &tex);
    draw(&mut other_fb, &mut other_zb, p, &solid);
    assert_eq!(fb, other_fb);
    assert_eq!(zb, other_zb);
    draw(&mut other_fb, &mut other_zb, q, &tex);
    draw(&mut other_fb, &mut other_zb, p, &solid);
    assert_eq!(fb, other_fb);
    assert_eq!(zb, other_zb);
    assert_eq!((fb[0], fb[2]), (0xFF00_0101, 0xFF46_505A));
}

#[test]
fn boxes_may_be_drawn_in_any_order() {
    let other = |texture: &str| ModelFace { texture: texture.to_string(), uv: None, rotation: None };
    let slab = |depth: f32, texture: &str| {
        element([0.0; 3], [16.0, 16.0, depth], Some(false), vec![("south", other(texture))])
    };
    let mut cache = cached(vec![image(1, &[[1, 1, 1, 255]])]);
    cache.insert(
        "lattice".to_string(),
        AnimatedTexture {
            frames: vec![cut_out()],
            frame_delays_ms: vec![50],
        },
    );
    let (far, near) = (|| slab(4.0, "stone"), || slab(12.0, "lattice"));
    let nothing = || element([0.0; 3], [16.0; 3], None, vec![("south", other("gone"))]);
    let expected = vec![[1, 2, 3, 255], [1, 1, 1, 255], [4, 5, 6, 255], [1, 1, 1, 255]];
    assert_eq!(render(&vec![far(), near()], &cache, 2, false), expected);
    assert_eq!(render(&vec![near(), far()], &cache, 2, false), expected);
    for at in 0..3 {
        let mut elements = vec![near(), far()];
        elements.insert(at, nothing());
        assert_eq!(render(&elements, &cache, 2, false), expected);
    }
    for aa in [false, true] {
        assert_eq!(render(&vec![nothing()], &cache, 2, aa), vec![[0; 4]; 4]);
        assert_eq!(render(&vec![], &cache, 2, aa), vec![[0; 4]; 4]);
    }
}
