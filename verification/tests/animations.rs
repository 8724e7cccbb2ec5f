//! Images, animated textures, and animated files.

use mc_renderer::animation::{interpolate_frames, AnimatedTexture, AnimationMeta, McMeta};
use mc_renderer::arith::Operation;
use mc_renderer::json::{JsonScalar, JsonValue};
use mc_renderer::name_map::{NameMap, Replicate};
use mc_renderer::pixels::{crop, Rgba, RgbaImage};
use mc_renderer::single::Single;
use mc_renderer::webp::{at_step, can_count_times, encode_animated_webp, EncodeError, Step};
use webp_animation::Error;

fn single(x: f32) -> Single {
    Single { bits: x.to_bits() }
}

fn float(x: Single) -> f32 {
    f32::from_bits(x.bits)
}

fn arith(op: Operation) -> Single {
    single(match op {
        Operation::Add(a, b) => float(a) + float(b),
        Operation::Subtract(a, b) => float(a) - float(b),
        Operation::Multiply(a, b) => float(a) * float(b),
        Operation::Divide(a, b) => float(a) / float(b),
        Operation::Convert(n) => n as f32,
    })
}

/// An image whose bytes count up from `first`.
fn counted(width: u32, height: u32, first: u8) -> RgbaImage {
    let bytes = (0..4 * width * height).map(|i| first.wrapping_add(i as u8)).collect();
    RgbaImage::from_raw(width, height, bytes).unwrap()
}

fn filled(size: u32, color: [u8; 4]) -> RgbaImage {
    let bytes = color.iter().copied().cycle().take((4 * size * size) as usize).collect();
    RgbaImage::from_raw(size, size, bytes).unwrap()
}

fn animation(
    interpolate: Option<bool>,
    frametime: Option<u32>,
    frames: Option<Vec<JsonValue>>,
) -> Option<McMeta> {
    Some(McMeta {
        animation: Some(AnimationMeta {
            interpolate,
            frametime,
            frames,
        }),
    })
}

fn object(members: &[(&str, u64)]) -> JsonValue {
    let mut map = NameMap::new();
    for (name, n) in members {
        map.insert(name.to_string(), JsonScalar::Unsigned(*n));
    }
    JsonValue::Object(map)
}

fn load(image: RgbaImage, meta: Option<McMeta>, allow: bool) -> Option<AnimatedTexture> {
    let exists = meta.is_some();
    assert!(AnimatedTexture::can_play(&image, exists, &meta, allow));
    AnimatedTexture::from_file(Some(image), exists, meta, allow, &arith)
}

fn bytes(texture: &AnimatedTexture) -> Vec<Vec<u8>> {
    texture.frames.iter().map(|f| f.as_raw().clone()).collect()
}

#[test]
fn an_image_has_four_bytes_to_a_pixel() {
    assert!(RgbaImage::from_raw(2, 3, vec![0; 24]).is_some());
    assert!(RgbaImage::from_raw(2, 3, vec![0; 23]).is_none());
    assert!(RgbaImage::from_raw(2, 3, vec![0; 28]).is_none());
    assert!(RgbaImage::from_raw(0, 3, vec![]).is_some());
    assert!(RgbaImage::from_raw(u32::MAX, u32::MAX, vec![0; 4]).is_none());
}

#[test]
fn pixels_are_set_one_by_one() {
    let mut image = RgbaImage::new(2, 2);
    assert_eq!(image.as_raw(), &vec![0u8; 16]);
    let p = Rgba { r: 1, g: 2, b: 3, a: 4 };
    image.put_pixel(1, 0, p);
    assert_eq!(image.get_pixel(1, 0), p);
    assert_eq!(image.get_pixel(0, 0), Rgba { r: 0, g: 0, b: 0, a: 0 });
    assert_eq!(image.as_raw(), &vec![0, 0, 0, 0, 1, 2, 3, 4, 0, 0, 0, 0, 0, 0, 0, 0]);
    assert_eq!((image.width(), image.height()), (2, 2));
    assert_eq!(image.replicate().as_raw(), image.as_raw());
    assert_eq!(image.clone().as_raw(), image.as_raw());
}

#[test]
fn a_part_of_an_image_is_cut_out() {
    let image = counted(3, 3, 0);
    let part = crop(&image, 1, 1, 2, 1);
    assert_eq!((part.width(), part.height()), (2, 1));
    assert_eq!(part.as_raw(), &vec![16, 17, 18, 19, 20, 21, 22, 23]);
    assert_eq!(crop(&image, 0, 0, 3, 3).as_raw(), image.as_raw());
    let rows = RgbaImage::from_raw(0x4000_0000, 0, Vec::new()).unwrap();
    let none = crop(&rows, 1, 0, 0x3FFF_FFFF, 0);
    assert_eq!((none.width(), none.height(), none.as_raw().len()), (0x3FFF_FFFF, 0, 0));
    let nothing = crop(&image, 3, 0, 0, 3);
    assert_eq!((nothing.width(), nothing.height()), (0, 3));
}

#[test]
fn a_square_image_without_second_file_is_still() {
    let image = counted(2, 2, 9);
    let expected = image.as_raw().clone();
    let texture = load(image, None, true).unwrap();
    assert_eq!(bytes(&texture), vec![expected]);
    assert_eq!(texture.frame_delays_ms, vec![50]);
    let wide = load(counted(3, 1, 0), None, false).unwrap();
    assert_eq!((wide.frames[0].width(), wide.frames[0].height()), (3, 1));
}

#[test]
fn a_high_image_holds_its_frames_one_below_the_other() {
    let texture = load(counted(1, 3, 0), None, true).unwrap();
    assert_eq!(
        bytes(&texture),
        vec![vec![0, 1, 2, 3], vec![4, 5, 6, 7], vec![8, 9, 10, 11]]
    );
    assert_eq!(texture.frame_delays_ms, vec![50, 50, 50]);
}

#[test]
fn what_is_left_below_the_last_square_is_dropped() {
    let texture = load(counted(2, 5, 0), None, false).unwrap();
    assert_eq!(
        bytes(&texture),
        vec![(0..16).collect::<Vec<u8>>(), (16..32).collect::<Vec<u8>>()]
    );
    for frame in &texture.frames {
        assert_eq!((frame.width(), frame.height()), (2, 2));
    }
}

#[test]
fn ticks_last_fifty_milliseconds() {
    let texture = load(counted(1, 2, 0), animation(None, Some(4), None), false).unwrap();
    assert_eq!(texture.frame_delays_ms, vec![200, 200]);
    let plain = load(counted(1, 2, 0), Some(McMeta { animation: None }), false).unwrap();
    assert_eq!(plain.frame_delays_ms, vec![50, 50]);
}

#[test]
fn listed_frames_are_shown_in_their_order() {
    let frames = vec![
        JsonValue::Unsigned(1),
        object(&[("index", 0), ("time", 3)]),
        object(&[("time", 7)]),
        object(&[("index", 1)]),
        JsonValue::Unsigned(2),
        object(&[("index", 9)]),
        JsonValue::Text("0".to_string()),
        JsonValue::Other,
        object(&[("index", 1), ("time", (1 << 32) + 5)]),
    ];
    let meta = animation(None, Some(2), Some(frames)).clone();
    let texture = load(counted(1, 2, 0), meta, true).unwrap();
    let (first, second) = (vec![0, 1, 2, 3], vec![4, 5, 6, 7]);
    assert_eq!(
        bytes(&texture),
        vec![second.clone(), first.clone(), first, second.clone(), second]
    );
    assert_eq!(texture.frame_delays_ms, vec![100, 150, 350, 100, 250]);
}

#[test]
fn members_that_are_no_numbers_count_as_missing() {
    let mut members = NameMap::new();
    members.insert("index".to_string(), JsonScalar::Text("1".to_string()));
    members.insert("time".to_string(), JsonScalar::Other);
    let frames = vec![JsonValue::Object(members)];
    let texture = load(counted(1, 2, 0), animation(None, Some(6), Some(frames)), true).unwrap();
    assert_eq!(bytes(&texture), vec![vec![0, 1, 2, 3]]);
    assert_eq!(texture.frame_delays_ms, vec![300]);
}

#[test]
fn without_frames_there_is_no_texture() {
    assert!(load(counted(1, 2, 0), animation(None, None, Some(vec![])), true).is_none());
    let out_of_range = vec![JsonValue::Unsigned(2)];
    assert!(load(counted(1, 2, 0), animation(None, None, Some(out_of_range)), true).is_none());
    assert!(load(counted(3, 2, 0), animation(None, None, None), true).is_none());
    assert!(AnimatedTexture::from_file(None, true, None, true, &arith).is_none());
}

#[test]
fn a_second_file_that_cannot_be_read_still_animates() {
    let image = counted(2, 2, 1);
    let expected = image.as_raw().clone();
    let texture = AnimatedTexture::from_file(Some(image), true, None, true, &arith).unwrap();
    assert_eq!(bytes(&texture), vec![expected]);
    assert_eq!(texture.frame_delays_ms, vec![50]);
    assert!(AnimatedTexture::from_file(Some(counted(3, 2, 1)), true, None, true, &arith).is_none());
}

#[test]
fn frames_fade_into_each_other() {
    let strip = || {
        RgbaImage::from_raw(1, 2, vec![0, 0, 0, 0, 100, 200, 50, 255]).unwrap()
    };
    let texture = load(strip(), animation(Some(true), Some(2), None), true).unwrap();
    assert_eq!(
        bytes(&texture),
        vec![
            vec![0, 0, 0, 0],
            vec![50, 100, 25, 128],
            vec![100, 200, 50, 255],
            vec![50, 100, 25, 128],
        ]
    );
    assert_eq!(texture.frame_delays_ms, vec![50, 50, 50, 50]);
    let uneven = vec![
        object(&[("index", 1), ("time", 1)]),
        object(&[("index", 0), ("time", 4)]),
    ];
    let texture = load(strip(), animation(Some(true), None, Some(uneven)), true).unwrap();
    assert_eq!(
        bytes(&texture),
        vec![
            vec![100, 200, 50, 255],
            vec![0, 0, 0, 0],
            vec![25, 50, 13, 64],
            vec![50, 100, 25, 128],
            vec![75, 150, 38, 191],
        ]
    );
}

#[test]
fn frames_fade_only_where_it_is_asked_for_and_allowed() {
    for (asked, allowed) in [(Some(true), false), (Some(false), true), (None, true)] {
        let texture = load(counted(1, 2, 0), animation(asked, Some(2), None), allowed).unwrap();
        assert_eq!(bytes(&texture), vec![vec![0, 1, 2, 3], vec![4, 5, 6, 7]]);
        assert_eq!(texture.frame_delays_ms, vec![100, 100]);
    }
}

#[test]
fn fading_does_not_change_how_long_it_lasts() {
    let frames = || {
        Some(vec![
            object(&[("index", 2), ("time", 3)]),
            JsonValue::Unsigned(0),
            object(&[("index", 1), ("time", 0)]),
            JsonValue::Unsigned(1),
        ])
    };
    let fading = load(counted(1, 3, 0), animation(Some(true), Some(5), frames()), true).unwrap();
    let still = load(counted(1, 3, 0), animation(Some(true), Some(5), frames()), false).unwrap();
    assert_eq!(fading.frames.len(), 13);
    assert_eq!(still.frames.len(), 4);
    assert_eq!(
        fading.frame_delays_ms.iter().sum::<u32>(),
        still.frame_delays_ms.iter().sum::<u32>()
    );
}

#[test]
fn fading_over_no_tick_shows_nothing() {
    let texture = load(counted(1, 2, 0), animation(Some(true), Some(0), None), true).unwrap();
    assert!(texture.frames.is_empty());
    assert!(!texture.can_show(0));
    let still = load(counted(1, 2, 0), animation(Some(true), Some(0), None), false).unwrap();
    assert_eq!(still.frame_delays_ms, vec![0, 0]);
    assert!(still.can_show(0) && still.can_show(5));
}

#[test]
fn what_cannot_be_played_is_known_before() {
    let empty = RgbaImage::from_raw(0, 2, vec![]).unwrap();
    assert!(!AnimatedTexture::can_play(&empty, false, &None, true));
    let nothing = RgbaImage::from_raw(0, 0, vec![]).unwrap();
    assert!(AnimatedTexture::can_play(&nothing, false, &None, true));
    assert!(!AnimatedTexture::can_play(&nothing, true, &None, true));
    let long = animation(Some(true), Some(u32::MAX / 50 + 1), None);
    assert!(!AnimatedTexture::can_play(&counted(1, 2, 0), true, &long, false));
    assert!(AnimatedTexture::can_play(&counted(1, 2, 0), true, &long, true));
    let longest = animation(Some(true), Some(u32::MAX / 50), None);
    assert!(AnimatedTexture::can_play(&counted(1, 2, 0), true, &longest, false));
}

#[test]
fn frames_are_counted_round() {
    let texture = load(counted(1, 3, 0), None, false).unwrap().clone();
    for (index, first) in [(0, 0), (1, 4), (2, 8), (3, 0), (4, 4), (302, 8)] {
        assert_eq!(texture.get_frame(index).as_raw()[0], first);
    }
}

#[test]
fn images_are_mixed_by_parts() {
    let a = counted(2, 1, 0);
    let b = counted(2, 1, 100);
    assert_eq!(interpolate_frames(&a, &b, single(0.0), &arith).as_raw(), a.as_raw());
    assert_eq!(interpolate_frames(&a, &b, single(1.0), &arith).as_raw(), b.as_raw());
    assert_eq!(
        interpolate_frames(&a, &b, single(0.25), &arith).as_raw(),
        &(25..33).collect::<Vec<u8>>()
    );
}

fn decoded(data: &[u8]) -> Vec<(Vec<u8>, i32)> {
    webp_animation::Decoder::new(data)
        .unwrap()
        .into_iter()
        .map(|frame| (frame.data().to_vec(), frame.timestamp()))
        .collect()
}

const RED: [u8; 4] = [200, 10, 20, 255];
const BLUE: [u8; 4] = [10, 20, 210, 255];

#[test]
fn an_encoded_animation_gives_back_its_frames() {
    let frames = vec![filled(2, RED), filled(2, BLUE)];
    let delays = vec![100, 50];
    assert!(can_count_times(&frames, &delays, 2));
    let data = encode_animated_webp(&frames, &delays, 2).unwrap();
    let shown = decoded(&data);
    assert_eq!(shown.len(), 2);
    assert_eq!(&shown[0].0, frames[0].as_raw());
    assert_eq!(&shown[1].0, frames[1].as_raw());
    assert_eq!((shown[0].1, shown[1].1), (100, 150));
}

#[test]
fn a_frame_without_delay_lasts_a_quarter_of_a_second() {
    let frames = vec![filled(1, RED), filled(1, BLUE), filled(1, RED)];
    let data = encode_animated_webp(&frames, &vec![100], 1).unwrap();
    let ends: Vec<i32> = decoded(&data).iter().map(|frame| frame.1).collect();
    assert_eq!(ends, vec![100, 350, 600]);
}

#[test]
fn encoding_fails_where_the_canvas_has_no_size() {
    let frames = vec![filled(2, RED)];
    let start = |size: u32| encode_animated_webp(&frames, &vec![50], size).err();
    assert_eq!(start(0), Some(EncodeError::Start(Error::DimensionsMustbePositive)));
    assert_eq!(start(u32::MAX), Some(EncodeError::Start(Error::EncoderCreateFailed)));
    assert_eq!(start(65536), Some(EncodeError::Start(Error::EncoderCreateFailed)));
}

#[test]
fn encoding_fails_at_a_frame_that_does_not_follow() {
    let frames = || vec![filled(2, RED), filled(2, BLUE), filled(2, RED)];
    let failed = |frames: Vec<RgbaImage>, delays: Vec<u32>, size: u32| {
        assert!(can_count_times(&frames, &delays, size));
        encode_animated_webp(&frames, &delays, size).err()
    };
    let early = |i: usize, time: i32, last: i32| {
        Some(EncodeError::Frame(i, Error::TimestampMustBeHigherThanPrevious(time, last)))
    };
    assert_eq!(failed(frames(), vec![50, 0, 50], 2), early(2, 50, 50));
    assert_eq!(failed(frames(), vec![0, 50, 50], 2), early(1, 0, 0));
    assert_eq!(failed(frames(), vec![u32::MAX, 50, 50], 2), early(1, -1, 0));
    let wrong = |i: usize, expected: usize, found: usize| {
        Some(EncodeError::Frame(i, Error::BufferSizeFailed(expected, found)))
    };
    assert_eq!(failed(frames(), vec![50, 50, 50], 3), wrong(0, 36, 16));
    let mixed = vec![filled(2, RED), filled(1, BLUE)];
    assert_eq!(failed(mixed, vec![50, 50], 2), wrong(1, 16, 4));
}

#[test]
fn encoding_fails_without_frames_or_with_an_early_end() {
    assert_eq!(
        encode_animated_webp(&vec![], &vec![], 2).err(),
        Some(EncodeError::Finish(Error::NoFramesAdded))
    );
    assert_eq!(
        encode_animated_webp(&vec![filled(2, RED)], &vec![u32::MAX], 2).err(),
        Some(EncodeError::Finish(Error::TimestampMustBeEqualOrHigherThanPrevious(-1, 0)))
    );
}

#[test]
fn an_error_says_at_which_step_it_came_and_why() {
    let failed = || webp_animation::Encoder::new((0, 0)).map(|_| 1);
    let cause = || Error::DimensionsMustbePositive;
    assert_eq!(at_step(failed(), Step::Start), Err(EncodeError::Start(cause())));
    assert_eq!(at_step(failed(), Step::Frame(3)), Err(EncodeError::Frame(3, cause())));
    assert_eq!(at_step(failed(), Step::Finish), Err(EncodeError::Finish(cause())));
    assert_eq!(at_step(Ok(7), Step::Start), Ok(7));
}

#[test]
fn times_are_counted_as_far_as_frames_follow() {
    let most = i32::MAX as u32;
    let count = |delays: Vec<u32>, n: usize, size: u32| {
        let frames = (0..n).map(|_| filled(1, RED)).collect();
        can_count_times(&frames, &delays, size)
    };
    assert!(count(vec![], 0, 1));
    assert!(count(vec![most], 1, 1));
    assert!(!count(vec![most], 2, 1));
    assert!(count(vec![most], 2, 0));
    assert!(count(vec![most], 2, 65536));
    assert!(count(vec![most], 2, 3));
    assert!(!count(vec![most - 100, 50, 51], 3, 1));
    assert!(count(vec![most - 100, 50, 50], 3, 1));
    assert!(count(vec![100, 0, most, most], 4, 1));
    assert!(count(vec![u32::MAX, most], 2, 1));
    assert!(count(vec![], 1000, 1));
    assert!(!count(vec![most - 1000], 6, 1));
    let mixed = vec![filled(1, RED), filled(2, BLUE)];
    assert!(can_count_times(&mixed, &vec![most, 1], 1));
}

#[test]
fn a_mix_is_the_same_from_either_end() {
    let a = counted(2, 2, 3);
    let b = counted(2, 2, 130);
    for t in [0.0, 0.25, 0.5, 0.75, 0.875, 1.0] {
        let there = interpolate_frames(&a, &b, single(t), &arith);
        let back = interpolate_frames(&b, &a, single(1.0 - t), &arith);
        assert_eq!(there.as_raw(), back.as_raw());
    }
}
