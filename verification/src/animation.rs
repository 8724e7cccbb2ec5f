//! Animated textures: a texture file holds its frames one below the other, and
//! a second file may say in which order and for how long they are shown.
use crate::arith::{
    accepts_all, add_singles, alike, convert_whole, divide_singles, means, minus,
    multiply_singles, over, plus, subtract_singles, sums_commute, times, whole, Meaning, Operation,
};
use crate::json::{get_unsigned, unsigned_member, JsonValue, ValueView};
use crate::name_map::Replicate;
use crate::pixels::{crop, lemma_offset, lemma_same_pixels, offset, ImageView, Rgba, RgbaImage};
use crate::single::{Single, ONE};
use vstd::prelude::*;

verus! {

/// The length of a tick, in milliseconds.
pub const TICK_MS: u32 = 50;

/// The file that goes with a texture.
#[derive(Debug)]
pub struct McMeta {
    pub animation: Option<AnimationMeta>,
}

/// How a texture is animated: whether frames fade into each other, how many
/// ticks a frame is shown, and which frames are shown in which order.
#[derive(Debug)]
pub struct AnimationMeta {
    pub interpolate: Option<bool>,
    pub frametime: Option<u32>,
    pub frames: Option<Vec<JsonValue>>,
}

/// What a texture's second file says about its animation.
pub struct AnimationView {
    pub interpolate: Option<bool>,
    pub frametime: Option<u32>,
    pub frames: Option<Seq<ValueView>>,
}

/// What the values stand for.
pub open spec fn value_views(values: Seq<JsonValue>) -> Seq<ValueView> {
    Seq::new(values.len(), |i: int| values[i]@)
}

impl View for AnimationMeta {
    type V = AnimationView;

    open spec fn view(&self) -> AnimationView {
        AnimationView {
            interpolate: self.interpolate,
            frametime: self.frametime,
            frames: match self.frames {
                Some(frames) => Some(value_views(frames@)),
                None => None,
            },
        }
    }
}

impl View for McMeta {
    type V = Option<AnimationView>;

    open spec fn view(&self) -> Option<AnimationView> {
        match self.animation {
            Some(animation) => Some(animation@),
            None => None,
        }
    }
}

/// What is said about the animation by a second file that may be missing.
pub open spec fn animation_of(meta: Option<McMeta>) -> Option<AnimationView> {
    match meta {
        Some(file) => file@,
        None => None,
    }
}

/// A texture: its frames, and for how many milliseconds each is shown.
#[derive(Debug)]
pub struct AnimatedTexture {
    pub frames: Vec<RgbaImage>,
    pub frame_delays_ms: Vec<u32>,
}

/// What a texture stands for.
pub struct TextureView {
    pub frames: Seq<ImageView>,
    pub frame_delays_ms: Seq<u32>,
}

/// What the images stand for.
pub open spec fn image_views(images: Seq<RgbaImage>) -> Seq<ImageView> {
    Seq::new(images.len(), |i: int| images[i]@)
}

impl View for AnimatedTexture {
    type V = TextureView;

    open spec fn view(&self) -> TextureView {
        TextureView {
            frames: image_views(self.frames@),
            frame_delays_ms: self.frame_delays_ms@,
        }
    }
}

impl Replicate for AnimationMeta {
    fn replicate(&self) -> (r: Self) {
        AnimationMeta {
            interpolate: self.interpolate,
            frametime: self.frametime,
            frames: match &self.frames {
                Some(frames) => Some(replicate_values(frames)),
                None => None,
            },
        }
    }
}

/// A copy of the values.
fn replicate_values(values: &Vec<JsonValue>) -> (r: Vec<JsonValue>)
    ensures
        value_views(r@) == value_views(values@),
{
    let mut copies: Vec<JsonValue> = Vec::new();
    let mut i: usize = 0;
    while i < values.len()
        invariant
            i <= values.len(),
            copies@.len() == i,
            forall|j: int| 0 <= j < i ==> (#[trigger] copies@[j])@ == values@[j]@,
        decreases values.len() - i,
    {
        copies.push(values[i].replicate());
        i += 1;
    }
    assert(value_views(copies@) =~= value_views(values@));
    copies
}

impl Replicate for McMeta {
    fn replicate(&self) -> (r: Self) {
        McMeta {
            animation: match &self.animation {
                Some(animation) => Some(animation.replicate()),
                None => None,
            },
        }
    }
}

impl Replicate for AnimatedTexture {
    fn replicate(&self) -> (r: Self) {
        let mut frames: Vec<RgbaImage> = Vec::new();
        let mut i: usize = 0;
        while i < self.frames.len()
            invariant
                i <= self.frames.len(),
                frames@.len() == i,
                forall|j: int| 0 <= j < i ==> (#[trigger] frames@[j])@ == self.frames@[j]@,
            decreases self.frames.len() - i,
        {
            frames.push(self.frames[i].replicate());
            i += 1;
        }
        let frame_delays_ms = self.frame_delays_ms.clone();
        assert(frame_delays_ms@ =~= self.frame_delays_ms@);
        assert(image_views(frames@) =~= image_views(self.frames@));
        AnimatedTexture { frames, frame_delays_ms }
    }
}

impl Clone for AnimationMeta {
    fn clone(&self) -> (r: Self)
        ensures
            r@ == self@,
    {
        self.replicate()
    }
}

impl Clone for McMeta {
    fn clone(&self) -> (r: Self)
        ensures
            r@ == self@,
    {
        self.replicate()
    }
}

impl Clone for AnimatedTexture {
    fn clone(&self) -> (r: Self)
        ensures
            r@ == self@,
    {
        self.replicate()
    }
}

/// A byte on the way from `a` to `b`: `a` where `t` is 0, `b` where it is 1.
pub open spec fn blended_byte(sem: Meaning, a: u8, b: u8, t: Single) -> u8 {
    plus(
        sem,
        times(sem, whole(sem, a as u64), minus(sem, Single { bits: ONE }, t)),
        times(sem, whole(sem, b as u64), t),
    ).rounded() as u8
}

/// A pixel on the way from `a` to `b`.
pub open spec fn blended_pixel(sem: Meaning, a: Rgba, b: Rgba, t: Single) -> Rgba {
    Rgba {
        r: blended_byte(sem, a.r, b.r, t),
        g: blended_byte(sem, a.g, b.g, t),
        b: blended_byte(sem, a.b, b.b, t),
        a: blended_byte(sem, a.a, b.a, t),
    }
}

/// Whether `image` has the size of `a` and each pixel on the way from `a` to `b`.
pub open spec fn is_blend(
    sem: Meaning,
    image: ImageView,
    a: ImageView,
    b: ImageView,
    t: Single,
) -> bool {
    &&& image.is_full()
    &&& image.width == a.width
    &&& image.height == a.height
    &&& forall|x: int, y: int|
        a.has(x, y) ==> #[trigger] image.pixel(x, y) == blended_pixel(
            sem,
            a.pixel(x, y),
            b.pixel(x, y),
            t,
        )
}

fn blend_byte<F: Fn(Operation) -> Single>(arith: &F, a: u8, b: u8, t: Single) -> (r: u8)
    requires
        accepts_all(*arith),
    ensures
        forall|sem: Meaning| #[trigger] means(*arith, sem) ==> r == blended_byte(sem, a, b, t),
{
    let from = convert_whole(arith, a as u64);
    let left = subtract_singles(arith, Single { bits: ONE }, t);
    let first = multiply_singles(arith, from, left);
    let to = convert_whole(arith, b as u64);
    let second = multiply_singles(arith, to, t);
    add_singles(arith, first, second).round()
}

/// The image on the way from `img_a` to `img_b`: `img_a` where `t` is 0.
pub fn interpolate_frames<F: Fn(Operation) -> Single>(
    img_a: &RgbaImage,
    img_b: &RgbaImage,
    t: Single,
    arith: &F,
) -> (r: RgbaImage)
    requires
        accepts_all(*arith),
        forall|x: int, y: int| img_a@.has(x, y) ==> #[trigger] img_b@.has(x, y),
    ensures
        r@.is_full(),
        r@.width == img_a@.width,
        r@.height == img_a@.height,
        forall|sem: Meaning| #[trigger]
            means(*arith, sem) ==> is_blend(sem, r@, img_a@, img_b@, t),
{
    let w = img_a.width();
    let h = img_a.height();
    let mut out = img_a.replicate();
    let mut y: u32 = 0;
    while y < h
        invariant
            accepts_all(*arith),
            w == img_a@.width,
            h == img_a@.height,
            y <= h,
            forall|i: int, j: int| img_a@.has(i, j) ==> #[trigger] img_b@.has(i, j),
            out@.is_full(),
            out@.width == w,
            out@.height == h,
            forall|sem: Meaning, i: int, j: int|
                #![trigger means(*arith, sem), out@.pixel(i, j)]
                means(*arith, sem) && 0 <= i < w && 0 <= j < y ==> out@.pixel(i, j)
                    == blended_pixel(sem, img_a@.pixel(i, j), img_b@.pixel(i, j), t),
        decreases h - y,
    {
        let mut x: u32 = 0;
        while x < w
            invariant
                accepts_all(*arith),
                w == img_a@.width,
                h == img_a@.height,
                y < h,
                x <= w,
                forall|i: int, j: int| img_a@.has(i, j) ==> #[trigger] img_b@.has(i, j),
                out@.is_full(),
                out@.width == w,
                out@.height == h,
                forall|sem: Meaning, i: int, j: int|
                    #![trigger means(*arith, sem), out@.pixel(i, j)]
                    means(*arith, sem) && 0 <= i < w && 0 <= j < h && (j < y || j == y && i < x)
                        ==> out@.pixel(i, j) == blended_pixel(
                        sem,
                        img_a@.pixel(i, j),
                        img_b@.pixel(i, j),
                        t,
                    ),
            decreases w - x,
        {
            assert(img_b@.has(x as int, y as int));
            let a = img_a.get_pixel(x, y);
            let b = img_b.get_pixel(x, y);
            let p = Rgba {
                r: blend_byte(arith, a.r, b.r, t),
                g: blend_byte(arith, a.g, b.g, t),
                b: blend_byte(arith, a.b, b.b, t),
                a: blend_byte(arith, a.a, b.a, t),
            };
            out.put_pixel(x, y, p);
            x += 1;
        }
        y += 1;
    }
    out
}

/// The square with number `i` from the top of an image, as wide as the image.
pub open spec fn slice_of(image: ImageView, i: int) -> ImageView {
    let size = 4 * (image.width * image.width);
    ImageView {
        width: image.width,
        height: image.width,
        bytes: image.bytes.subrange(size * i, size * (i + 1)),
    }
}

/// The number of squares in an image.
pub open spec fn slice_count(image: ImageView) -> nat {
    image.height / image.width
}

/// Whether a texture is taken to be animated: where it is higher than wide, or
/// has a second file.
pub open spec fn is_animated(image: ImageView, meta_exists: bool) -> bool {
    image.height > image.width || meta_exists
}

/// How many ticks a frame is shown where nothing else is said of it.
pub open spec fn base_frametime(animation: Option<AnimationView>) -> u32 {
    match animation {
        Some(AnimationView { frametime: Some(ticks), .. }) => ticks,
        _ => 1,
    }
}

/// Whether frames fade into each other.
pub open spec fn is_interpolated(animation: Option<AnimationView>, allowed: bool) -> bool {
    match animation {
        Some(AnimationView { interpolate: Some(wanted), .. }) => wanted && allowed,
        _ => false,
    }
}

/// The frame that an entry of the list of frames stands for, out of `count`,
/// with the ticks for which it is shown.
pub open spec fn keyframe(item: ValueView, count: nat, base: u32) -> Option<(usize, u32)> {
    let (index, ticks) = match item {
        ValueView::Unsigned(n) => (Some(n as usize), base),
        ValueView::Object(members) => (
            Some(
                match unsigned_member(members, "index"@) {
                    Some(n) => n as usize,
                    None => 0,
                },
            ),
            match unsigned_member(members, "time"@) {
                Some(n) => n as u32,
                None => base,
            },
        ),
        _ => (None, base),
    };
    match index {
        Some(i) if i < count => Some((i, ticks)),
        _ => None,
    }
}

/// The frames that the entries stand for; an entry that stands for none is left out.
pub open spec fn listed_keyframes(items: Seq<ValueView>, count: nat, base: u32) -> Seq<
    (usize, u32),
>
    decreases items.len(),
{
    if items.len() == 0 {
        Seq::empty()
    } else {
        let earlier = listed_keyframes(items.drop_last(), count, base);
        match keyframe(items.last(), count, base) {
            Some(key) => earlier.push(key),
            None => earlier,
        }
    }
}

/// The frames that are shown, out of `count`, each with its ticks: those that are
/// listed, or all of them in order.
pub open spec fn keyframes(animation: Option<AnimationView>, count: nat) -> Seq<(usize, u32)> {
    let base = base_frametime(animation);
    match animation {
        Some(AnimationView { frames: Some(items), .. }) => listed_keyframes(items, count, base),
        _ => Seq::new(count, |i: int| (i as usize, base)),
    }
}

/// What is shown at one moment of an animation.
pub enum Shot {
    /// A square for a number of ticks.
    Still { slice: int, ticks: u32 },
    /// For one tick, the tick with number `tick` out of `ticks` on the way from one square to
    /// another.
    Between { slice: int, next: int, tick: u32, ticks: u32 },
}

impl Shot {
    /// How long it is shown, in milliseconds.
    pub open spec fn delay(self) -> int {
        match self {
            Shot::Still { ticks, .. } => ticks * TICK_MS,
            Shot::Between { .. } => TICK_MS as int,
        }
    }

    /// Whether `frame` shows it, out of the squares of `image`.
    pub open spec fn shown_by(self, sem: Meaning, image: ImageView, frame: ImageView) -> bool {
        match self {
            Shot::Still { slice, .. } => frame == slice_of(image, slice),
            Shot::Between { slice, next, tick, ticks } => {
                let t = over(sem, whole(sem, tick as u64), whole(sem, ticks as u64));
                if !t.is_nan() && t.value() == 0 {
                    frame == slice_of(image, slice)
                } else {
                    is_blend(sem, frame, slice_of(image, slice), slice_of(image, next), t)
                }
            },
        }
    }
}

/// The shots on the way from the frame with number `i` to the one after it, the first
/// after the last.
pub open spec fn fade(keys: Seq<(usize, u32)>, i: int) -> Seq<Shot> {
    Seq::new(
        keys[i].1 as nat,
        |tick: int|
            Shot::Between {
                slice: keys[i].0 as int,
                next: keys[(i + 1) % keys.len() as int].0 as int,
                tick: tick as u32,
                ticks: keys[i].1,
            },
    )
}

/// The shots on the way through the first `n` frames.
pub open spec fn fades(keys: Seq<(usize, u32)>, n: nat) -> Seq<Shot>
    decreases n,
{
    if n == 0 {
        Seq::empty()
    } else {
        fades(keys, (n - 1) as nat) + fade(keys, n - 1)
    }
}

/// The shots of an animation.
pub open spec fn shots(keys: Seq<(usize, u32)>, interpolated: bool) -> Seq<Shot> {
    if interpolated {
        fades(keys, keys.len())
    } else {
        Seq::new(keys.len(), |i: int| Shot::Still { slice: keys[i].0 as int, ticks: keys[i].1 })
    }
}

/// Whether each frame of `texture` is shown as long as its shot is.
pub open spec fn is_timed(all: Seq<Shot>, texture: TextureView) -> bool {
    &&& texture.frames.len() == all.len()
    &&& texture.frame_delays_ms.len() == all.len()
    &&& forall|k: int|
        0 <= k < all.len() ==> (#[trigger] texture.frame_delays_ms[k]) == all[k].delay()
}

/// Whether each frame shows its shot.
pub open spec fn shows(
    sem: Meaning,
    image: ImageView,
    all: Seq<Shot>,
    frames: Seq<ImageView>,
) -> bool {
    &&& frames.len() == all.len()
    &&& forall|k: int| 0 <= k < all.len() ==> all[k].shown_by(sem, image, #[trigger] frames[k])
}

/// Whether an animation can be made: the image has some width, and no frame is
/// shown longer than can be counted in milliseconds.
pub open spec fn is_playable(
    image: ImageView,
    meta_exists: bool,
    animation: Option<AnimationView>,
    allowed: bool,
) -> bool {
    is_animated(image, meta_exists) ==> {
        &&& image.width > 0
        &&& is_interpolated(animation, allowed) || times_fit(
            keyframes(animation, slice_count(image)),
        )
    }
}

/// Whether the time for which each frame is shown can be counted in milliseconds.
pub open spec fn times_fit(keys: Seq<(usize, u32)>) -> bool {
    forall|i: int| 0 <= i < keys.len() ==> (#[trigger] keys[i]).1 * TICK_MS <= u32::MAX
}

/// The squares of an image, from the top.
fn slices(image: &RgbaImage) -> (r: Vec<RgbaImage>)
    requires
        image@.width > 0,
    ensures
        r@.len() == slice_count(image@),
        forall|i: int| 0 <= i < r@.len() ==> (#[trigger] r@[i])@ == slice_of(image@, i),
        forall|i: int| 0 <= i < r@.len() ==> (#[trigger] r@[i])@.is_full(),
{
    let width = image.width();
    let total: u32 = image.height() / width;
    let mut extracted: Vec<RgbaImage> = Vec::new();
    let mut i: u32 = 0;
    while i < total
        invariant
            width == image@.width,
            width > 0,
            image@.is_full(),
            image@.height <= u32::MAX,
            total == slice_count(image@),
            i <= total,
            extracted@.len() == i,
            forall|k: int| 0 <= k < i ==> (#[trigger] extracted@[k])@ == slice_of(image@, k),
            forall|k: int| 0 <= k < i ==> (#[trigger] extracted@[k])@.is_full(),
        decreases total - i,
    {
        proof {
            lemma_slice_fits(image@, i as int);
        }
        let part = crop(image, 0, i * width, width, width);
        proof {
            lemma_slice(image@, i as int, part@);
        }
        extracted.push(part);
        i += 1;
    }
    extracted
}

/// Each square lies within the image.
proof fn lemma_slice_fits(image: ImageView, i: int)
    requires
        image.width > 0,
        0 <= i < slice_count(image),
    ensures
        0 <= i * image.width,
        i * image.width + image.width <= image.height,
{
    let (w, h) = (image.width as int, image.height as int);
    assert(0 <= i * w && i * w + w <= h) by (nonlinear_arith)
        requires
            w > 0,
            h >= 0,
            0 <= i < h / w,
    ;
}

/// The part of an image that a square covers is that square.
proof fn lemma_slice(image: ImageView, i: int, part: ImageView)
    requires
        image.is_full(),
        image.width > 0,
        0 <= i < slice_count(image),
        part.is_full(),
        part.width == image.width,
        part.height == image.width,
        forall|x: int, y: int|
            part.has(x, y) ==> #[trigger] part.pixel(x, y) == image.pixel(
                0 + x,
                i * image.width + y,
            ),
    ensures
        part == slice_of(image, i),
        slice_of(image, i).is_full(),
{
    let w = image.width as int;
    let h = image.height as int;
    let square = slice_of(image, i);
    let size = 4 * (w * w);
    lemma_slice_fits(image, i);
    assert(0 <= size * i && size * (i + 1) <= 4 * (w * h) && size * (i + 1) - size * i == size)
        by (nonlinear_arith)
        requires
            w > 0,
            0 <= i,
            i * w + w <= h,
            size == 4 * (w * w),
    ;
    assert(square.is_full());
    assert forall|x: int, y: int| part.has(x, y) implies #[trigger] part.pixel(x, y)
        == square.pixel(x, y) by {
        lemma_offset(w, w, x, y);
        assert(offset(w, x, i * w + y) == size * i + offset(w, x, y)) by (nonlinear_arith)
            requires
                size == 4 * (w * w),
        ;
    }
    lemma_same_pixels(part, square);
}

/// The frame that an entry stands for.
fn read_keyframe(item: &JsonValue, count: usize, base: u32) -> (r: Option<(usize, u32)>)
    ensures
        r == keyframe(item@, count as nat, base),
{
    match item {
        JsonValue::Unsigned(n) => {
            let index: usize = *n as usize;
            if index < count {
                Some((index, base))
            } else {
                None
            }
        },
        JsonValue::Object(members) => {
            let index: usize = match get_unsigned(members, "index") {
                Some(n) => n as usize,
                None => 0,
            };
            let ticks: u32 = match get_unsigned(members, "time") {
                Some(n) => n as u32,
                None => base,
            };
            if index < count {
                Some((index, ticks))
            } else {
                None
            }
        },
        _ => None,
    }
}

/// The frames that are shown, out of `count`.
fn read_keyframes(meta: &Option<McMeta>, count: usize) -> (r: Vec<(usize, u32)>)
    ensures
        r@ == keyframes(animation_of(*meta), count as nat),
{
    let ghost animation = animation_of(*meta);
    let mut keys: Vec<(usize, u32)> = Vec::new();
    let mut base: u32 = 1;
    if let Some(McMeta { animation: Some(found) }) = meta {
        if let Some(ticks) = found.frametime {
            base = ticks;
        }
        if let Some(items) = &found.frames {
            let ghost views = value_views(items@);
            let mut i: usize = 0;
            assert(views.take(0) == Seq::<ValueView>::empty());
            while i < items.len()
                invariant
                    i <= items.len(),
                    views == value_views(items@),
                    keys@ == listed_keyframes(views.take(i as int), count as nat, base),
                decreases items.len() - i,
            {
                assert(views.take(i + 1).drop_last() == views.take(i as int));
                assert(views.take(i + 1).last() == items@[i as int]@);
                if let Some(key) = read_keyframe(&items[i], count, base) {
                    keys.push(key);
                }
                i += 1;
            }
            assert(views.take(i as int) == views);
            return keys;
        }
    }
    assert(base == base_frametime(animation));
    let mut i: usize = 0;
    while i < count
        invariant
            i <= count,
            keys@.len() == i,
            forall|k: int| 0 <= k < i ==> #[trigger] keys@[k] == (k as usize, base),
        decreases count - i,
    {
        keys.push((i, base));
        i += 1;
    }
    assert(keys@ =~= keyframes(animation, count as nat));
    keys
}

/// Whether frames fade into each other.
fn read_interpolation(meta: &Option<McMeta>, allowed: bool) -> (r: bool)
    ensures
        r == is_interpolated(animation_of(*meta), allowed),
{
    match meta {
        Some(McMeta { animation: Some(found) }) => match found.interpolate {
            Some(wanted) => wanted && allowed,
            None => false,
        },
        _ => false,
    }
}

/// A frame shown by the tick with number `tick` on the way from `current` to `next`.
fn fade_frame<F: Fn(Operation) -> Single>(
    current: &RgbaImage,
    next: &RgbaImage,
    tick: u32,
    ticks: u32,
    arith: &F,
) -> (r: RgbaImage)
    requires
        accepts_all(*arith),
        next@.width == current@.width,
        next@.height == current@.height,
    ensures
        forall|sem: Meaning| #[trigger]
            means(*arith, sem) ==> {
                let t = over(sem, whole(sem, tick as u64), whole(sem, ticks as u64));
                if !t.is_nan() && t.value() == 0 {
                    r@ == current@
                } else {
                    is_blend(sem, r@, current@, next@, t)
                }
            },
{
    let passed = convert_whole(arith, tick as u64);
    let total = convert_whole(arith, ticks as u64);
    let t = divide_singles(arith, passed, total);
    if t.is_zero() {
        current.replicate()
    } else {
        interpolate_frames(current, next, t, arith)
    }
}

impl AnimatedTexture {
    /// Whether a texture can be made of an image and what its second file says:
    /// see [`is_playable`].
    #[verifier::loop_isolation(false)]
    pub fn can_play(
        image: &RgbaImage,
        meta_exists: bool,
        meta: &Option<McMeta>,
        allow_interpolation: bool,
    ) -> (r: bool)
        ensures
            r == is_playable(image@, meta_exists, animation_of(*meta), allow_interpolation),
    {
        let width = image.width();
        let height = image.height();
        if !(height > width || meta_exists) {
            return true;
        }
        if width == 0 {
            return false;
        }
        if read_interpolation(meta, allow_interpolation) {
            return true;
        }
        let total: u32 = height / width;
        let keys = read_keyframes(meta, total as usize);
        let mut i: usize = 0;
        while i < keys.len()
            invariant
                i <= keys.len(),
                forall|k: int| 0 <= k < i ==> (#[trigger] keys@[k]).1 * TICK_MS <= u32::MAX,
            decreases keys.len() - i,
        {
            if keys[i].1 > u32::MAX / TICK_MS {
                assert(keys@[i as int].1 * TICK_MS > u32::MAX);
                return false;
            }
            i += 1;
        }
        true
    }

    /// The texture made of what its two files hold: the image, where it could be
    /// read, whether the second file exists, and what it says, where it could be
    /// read. `None` where there is no image, or no frame to show.
    pub fn from_file<F: Fn(Operation) -> Single>(
        image: Option<RgbaImage>,
        meta_exists: bool,
        meta: Option<McMeta>,
        allow_interpolation: bool,
        arith: &F,
    ) -> (r: Option<AnimatedTexture>)
        requires
            accepts_all(*arith),
            image matches Some(img) ==> is_playable(
                img@,
                meta_exists,
                animation_of(meta),
                allow_interpolation,
            ),
        ensures
            image is None ==> r is None,
            image matches Some(img) ==> {
                let animation = animation_of(meta);
                let keys = keyframes(animation, slice_count(img@));
                let all = shots(keys, is_interpolated(animation, allow_interpolation));
                if !is_animated(img@, meta_exists) {
                    r matches Some(texture) && texture@ == (TextureView {
                        frames: seq![img@],
                        frame_delays_ms: seq![TICK_MS],
                    })
                } else {
                    &&& r is Some <==> keys.len() > 0
                    &&& r matches Some(texture) ==> is_timed(all, texture@)
                    &&& r matches Some(texture) ==> forall|sem: Meaning| #[trigger]
                        means(*arith, sem) ==> shows(sem, img@, all, texture@.frames)
                    &&& !is_interpolated(animation, allow_interpolation) ==> (r matches Some(
                        texture,
                    ) ==> forall|sem: Meaning| #[trigger]
                        shows(sem, img@, all, texture@.frames))
                }
            },
    {
        let img = match image {
            Some(img) => img,
            None => return None,
        };
        let width = img.width();
        let height = img.height();
        if !(height > width || meta_exists) {
            let ghost only = img@;
            let mut frames: Vec<RgbaImage> = Vec::new();
            frames.push(img);
            let mut delays: Vec<u32> = Vec::new();
            delays.push(TICK_MS);
            let texture = AnimatedTexture { frames, frame_delays_ms: delays };
            assert(texture@.frames =~= seq![only]);
            assert(texture@.frame_delays_ms =~= seq![TICK_MS]);
            return Some(texture);
        }
        let ghost animation = animation_of(meta);
        let squares = slices(&img);
        let keys = read_keyframes(&meta, squares.len());
        if keys.len() == 0 {
            return None;
        }
        proof {
            lemma_keys_in_range(animation, slice_count(img@));
        }
        let interpolated = read_interpolation(&meta, allow_interpolation);
        let (frames, delays) = if interpolated {
            play_fades(&img, &squares, &keys, arith)
        } else {
            play_stills(&img, &squares, &keys)
        };
        Some(AnimatedTexture { frames, frame_delays_ms: delays })
    }

    /// The frame shown at `index`, counted on from the first after the last.
    pub fn get_frame(&self, index: usize) -> (r: &RgbaImage)
        requires
            self.frames@.len() > 0,
        ensures
            *r == self.frames@[index as int % self.frames@.len() as int],
            r@ == frame_at(self@, index as int),
    {
        let i: usize = index % self.frames.len();
        &self.frames[i]
    }
}

/// The frame shown at `index`, counted on from the first after the last.
pub open spec fn frame_at(texture: TextureView, index: int) -> ImageView {
    texture.frames[index % texture.frames.len() as int]
}

/// Frames are taken out of those that there are.
pub proof fn lemma_keys_in_range(animation: Option<AnimationView>, count: nat)
    requires
        count <= usize::MAX,
    ensures
        forall|i: int|
            0 <= i < keyframes(animation, count).len() ==> (#[trigger] keyframes(animation, count)[i]).0
                < count,
{
    if let Some(AnimationView { frames: Some(items), .. }) = animation {
        lemma_listed_in_range(items, count, base_frametime(animation));
    }
}

proof fn lemma_listed_in_range(items: Seq<ValueView>, count: nat, base: u32)
    ensures
        forall|i: int|
            0 <= i < listed_keyframes(items, count, base).len() ==> (#[trigger] listed_keyframes(
                items,
                count,
                base,
            )[i]).0 < count,
    decreases items.len(),
{
    if items.len() > 0 {
        lemma_listed_in_range(items.drop_last(), count, base);
        let earlier = listed_keyframes(items.drop_last(), count, base);
        let all = listed_keyframes(items, count, base);
        assert forall|i: int| 0 <= i < all.len() implies (#[trigger] all[i]).0 < count by {
            if i < earlier.len() {
                assert(all[i] == earlier[i]);
            }
        }
    }
}

/// The frames of an animation whose squares follow each other.
fn play_stills(img: &RgbaImage, squares: &Vec<RgbaImage>, keys: &Vec<(usize, u32)>) -> (r: (
    Vec<RgbaImage>,
    Vec<u32>,
))
    requires
        squares@.len() == slice_count(img@),
        forall|i: int| 0 <= i < squares@.len() ==> (#[trigger] squares@[i])@ == slice_of(img@, i),
        forall|i: int| 0 <= i < keys@.len() ==> (#[trigger] keys@[i]).0 < squares@.len(),
        times_fit(keys@),
    ensures
        is_timed(
            shots(keys@, false),
            TextureView { frames: image_views(r.0@), frame_delays_ms: r.1@ },
        ),
        forall|k: int|
            0 <= k < keys@.len() ==> (#[trigger] image_views(r.0@)[k]) == slice_of(
                img@,
                keys@[k].0 as int,
            ),
{
    let ghost all = shots(keys@, false);
    let mut frames: Vec<RgbaImage> = Vec::new();
    let mut delays: Vec<u32> = Vec::new();
    let mut i: usize = 0;
    while i < keys.len()
        invariant
            i <= keys.len(),
            all == shots(keys@, false),
            squares@.len() == slice_count(img@),
            forall|k: int|
                0 <= k < squares@.len() ==> (#[trigger] squares@[k])@ == slice_of(img@, k),
            forall|k: int| 0 <= k < keys@.len() ==> (#[trigger] keys@[k]).0 < squares@.len(),
            times_fit(keys@),
            frames@.len() == i,
            delays@.len() == i,
            forall|k: int| 0 <= k < i ==> (#[trigger] delays@[k]) == all[k].delay(),
            forall|k: int|
                0 <= k < i ==> (#[trigger] frames@[k])@ == slice_of(img@, keys@[k].0 as int),
        decreases keys.len() - i,
    {
        let (index, ticks) = keys[i];
        assert(keys@[i as int].1 * TICK_MS <= u32::MAX);
        frames.push(squares[index].replicate());
        delays.push(ticks * TICK_MS);
        i += 1;
    }
    (frames, delays)
}

/// The frames of an animation whose squares fade into each other.
fn play_fades<F: Fn(Operation) -> Single>(
    img: &RgbaImage,
    squares: &Vec<RgbaImage>,
    keys: &Vec<(usize, u32)>,
    arith: &F,
) -> (r: (Vec<RgbaImage>, Vec<u32>))
    requires
        accepts_all(*arith),
        squares@.len() == slice_count(img@),
        forall|i: int| 0 <= i < squares@.len() ==> (#[trigger] squares@[i])@ == slice_of(img@, i),
        forall|i: int| 0 <= i < keys@.len() ==> (#[trigger] keys@[i]).0 < squares@.len(),
    ensures
        is_timed(
            shots(keys@, true),
            TextureView { frames: image_views(r.0@), frame_delays_ms: r.1@ },
        ),
        forall|sem: Meaning| #[trigger]
            means(*arith, sem) ==> shows(sem, img@, shots(keys@, true), image_views(r.0@)),
{
    let mut frames: Vec<RgbaImage> = Vec::new();
    let mut delays: Vec<u32> = Vec::new();
    let n = keys.len();
    let mut i: usize = 0;
    while i < n
        invariant
            accepts_all(*arith),
            n == keys@.len(),
            i <= n,
            squares@.len() == slice_count(img@),
            forall|k: int|
                0 <= k < squares@.len() ==> (#[trigger] squares@[k])@ == slice_of(img@, k),
            forall|k: int| 0 <= k < keys@.len() ==> (#[trigger] keys@[k]).0 < squares@.len(),
            is_timed(
                fades(keys@, i as nat),
                TextureView { frames: image_views(frames@), frame_delays_ms: delays@ },
            ),
            forall|sem: Meaning| #[trigger]
                means(*arith, sem) ==> shows(
                    sem,
                    img@,
                    fades(keys@, i as nat),
                    image_views(frames@),
                ),
        decreases n - i,
    {
        let (index, ticks) = keys[i];
        let following: usize = if i + 1 == n { 0 } else { i + 1 };
        proof {
            if i + 1 == n {
                vstd::arithmetic::div_mod::lemma_mod_self_0(n as int);
            } else {
                vstd::arithmetic::div_mod::lemma_small_mod((i + 1) as nat, n as nat);
            }
            assert(keys@[following as int].0 < squares@.len());
        }
        let next_index: usize = keys[following].0;
        let ghost earlier = fades(keys@, i as nat);
        let ghost now = fade(keys@, i as int);
        let mut tick: u32 = 0;
        assert(earlier + now.take(0) == earlier);
        while tick < ticks
            invariant
                accepts_all(*arith),
                tick <= ticks,
                i < keys@.len(),
                keys@[i as int] == (index, ticks),
                keys@[(i + 1) % keys@.len() as int].0 == next_index,
                now == fade(keys@, i as int),
                index < squares@.len(),
                next_index < squares@.len(),
                squares@.len() == slice_count(img@),
                forall|k: int|
                    0 <= k < squares@.len() ==> (#[trigger] squares@[k])@ == slice_of(img@, k),
                is_timed(
                    earlier + now.take(tick as int),
                    TextureView { frames: image_views(frames@), frame_delays_ms: delays@ },
                ),
                forall|sem: Meaning| #[trigger]
                    means(*arith, sem) ==> shows(
                        sem,
                        img@,
                        earlier + now.take(tick as int),
                        image_views(frames@),
                    ),
            decreases ticks - tick,
        {
            let ghost before = image_views(frames@);
            let frame = fade_frame(&squares[index], &squares[next_index], tick, ticks, arith);
            let ghost so_far = earlier + now.take(tick as int);
            let ghost shot = now[tick as int];
            assert(earlier + now.take(tick + 1) == so_far.push(shot));
            frames.push(frame);
            delays.push(TICK_MS);
            assert(image_views(frames@) == before.push(frame@));
            assert forall|sem: Meaning| #[trigger] means(*arith, sem) implies shows(
                sem,
                img@,
                so_far.push(shot),
                before.push(frame@),
            ) by {
                assert(shows(sem, img@, so_far, before));
                assert(shot.shown_by(sem, img@, frame@));
                assert forall|k: int| 0 <= k < so_far.len() + 1 implies so_far.push(
                    shot,
                )[k].shown_by(sem, img@, #[trigger] before.push(frame@)[k]) by {
                    if k < so_far.len() {
                        assert(so_far[k].shown_by(sem, img@, before[k]));
                    }
                }
            }
            tick += 1;
        }
        assert(now.take(tick as int) == now);
        i += 1;
    }
    (frames, delays)
}

/// How long the shots last together, in milliseconds.
pub open spec fn duration(all: Seq<Shot>) -> int
    decreases all.len(),
{
    if all.len() == 0 {
        0
    } else {
        duration(all.drop_last()) + all.last().delay()
    }
}

proof fn lemma_duration_of_both(a: Seq<Shot>, b: Seq<Shot>)
    ensures
        duration(a + b) == duration(a) + duration(b),
    decreases b.len(),
{
    if b.len() == 0 {
        assert(a + b == a);
    } else {
        lemma_duration_of_both(a, b.drop_last());
        assert((a + b).drop_last() == a + b.drop_last());
        assert((a + b).last() == b.last());
    }
}

proof fn lemma_duration_of_single_ticks(all: Seq<Shot>)
    requires
        forall|k: int| 0 <= k < all.len() ==> (#[trigger] all[k]) is Between,
    ensures
        duration(all) == all.len() * TICK_MS,
    decreases all.len(),
{
    if all.len() > 0 {
        lemma_duration_of_single_ticks(all.drop_last());
        assert(all.last() == all[all.len() - 1]);
    }
}

proof fn lemma_duration_of_fades(keys: Seq<(usize, u32)>, n: nat)
    requires
        n <= keys.len(),
    ensures
        duration(fades(keys, n)) == duration(shots(keys, false).take(n as int)),
    decreases n,
{
    let stills = shots(keys, false);
    if n == 0 {
        assert(stills.take(0).len() == 0);
    } else {
        let m = (n - 1) as nat;
        lemma_duration_of_fades(keys, m);
        lemma_duration_of_both(fades(keys, m), fade(keys, m as int));
        lemma_duration_of_single_ticks(fade(keys, m as int));
        assert(stills.take(n as int).drop_last() == stills.take(m as int));
        assert(stills.take(n as int).last() == stills[m as int]);
    }
}

/// An image on the way from `a` to `b` is one on the way back from `b` to `a`, as far from its
/// end as it was from its start.
pub proof fn law_blending_goes_both_ways(
    sem: Meaning,
    there: ImageView,
    back: ImageView,
    a: ImageView,
    b: ImageView,
    t: Single,
)
    requires
        sums_commute(sem),
        a.width == b.width,
        a.height == b.height,
        minus(sem, Single { bits: ONE }, minus(sem, Single { bits: ONE }, t)) == t,
        is_blend(sem, there, a, b, t),
        is_blend(sem, back, b, a, minus(sem, Single { bits: ONE }, t)),
    ensures
        there == back,
{
    let rest = minus(sem, Single { bits: ONE }, t);
    assert forall|x: int, y: int| there.has(x, y) implies #[trigger] there.pixel(x, y)
        == back.pixel(x, y) by {
        let (p, q) = (a.pixel(x, y), b.pixel(x, y));
        lemma_blended_back(sem, p.r, q.r, t);
        lemma_blended_back(sem, p.g, q.g, t);
        lemma_blended_back(sem, p.b, q.b, t);
        lemma_blended_back(sem, p.a, q.a, t);
        assert(back.pixel(x, y) == blended_pixel(sem, q, p, rest));
    }
    lemma_same_pixels(there, back);
}

proof fn lemma_blended_back(sem: Meaning, a: u8, b: u8, t: Single)
    requires
        sums_commute(sem),
        minus(sem, Single { bits: ONE }, minus(sem, Single { bits: ONE }, t)) == t,
    ensures
        blended_byte(sem, a, b, t) == blended_byte(
            sem,
            b,
            a,
            minus(sem, Single { bits: ONE }, t),
        ),
{
    let rest = minus(sem, Single { bits: ONE }, t);
    let first = times(sem, whole(sem, a as u64), rest);
    let second = times(sem, whole(sem, b as u64), t);
    assert(alike(plus(sem, first, second), plus(sem, second, first)));
}

/// Fading does not change how long an animation lasts.
pub proof fn law_fading_keeps_duration(keys: Seq<(usize, u32)>)
    ensures
        duration(shots(keys, true)) == duration(shots(keys, false)),
{
    lemma_duration_of_fades(keys, keys.len());
    assert(shots(keys, false).take(keys.len() as int) == shots(keys, false));
}

proof fn lemma_fades_are_empty(keys: Seq<(usize, u32)>, n: nat)
    requires
        n <= keys.len(),
    ensures
        fades(keys, n).len() == 0 <==> forall|i: int|
            0 <= i < n ==> (#[trigger] keys[i]).1 == 0,
    decreases n,
{
    if n > 0 {
        lemma_fades_are_empty(keys, (n - 1) as nat);
    }
}

/// An animation with frames shows something, except where frames that fade are all shown for
/// no tick.
pub proof fn law_something_is_shown(keys: Seq<(usize, u32)>, interpolated: bool)
    ensures
        shots(keys, interpolated).len() > 0 <==> exists|i: int|
            0 <= i < keys.len() && (!interpolated || (#[trigger] keys[i]).1 > 0),
{
    lemma_fades_are_empty(keys, keys.len());
    if !interpolated && keys.len() > 0 {
        assert(0 <= 0 < keys.len() && (!interpolated || keys[0].1 > 0));
    }
}

/// Every frame is a square as wide as the image that the squares come from.
pub proof fn law_frames_are_squares(
    sem: Meaning,
    image: ImageView,
    all: Seq<Shot>,
    frames: Seq<ImageView>,
    k: int,
)
    requires
        shows(sem, image, all, frames),
        0 <= k < frames.len(),
    ensures
        frames[k].width == image.width,
        frames[k].height == image.width,
{
    assert(all[k].shown_by(sem, image, frames[k]));
}

/// After the last frame the first is shown again.
pub proof fn law_frames_repeat(texture: TextureView, index: int)
    requires
        texture.frames.len() > 0,
    ensures
        frame_at(texture, index + texture.frames.len()) == frame_at(texture, index),
        0 <= index < texture.frames.len() ==> frame_at(texture, index) == texture.frames[index],
{
    let n = texture.frames.len() as int;
    vstd::arithmetic::div_mod::lemma_mod_add_multiples_vanish(index, n);
    assert((n + index) % n == (index + n) % n);
    if 0 <= index < n {
        vstd::arithmetic::div_mod::lemma_small_mod(index as nat, n as nat);
    }
}

}
