//! What an animated texture shows at each moment.
use crate::animation::{
    base_frametime, blended_byte, fade, fades, frame_at, is_animated, is_interpolated, is_playable,
    keyframes,
    listed_keyframes, shots, shows, slice_count, slice_of, times_fit, AnimationView,
    Shot, TextureView,
};
use crate::arith::{minus, over, plus, times, whole, Meaning};
use crate::ieee::ieee;
use crate::json::{ScalarView, ValueView};
use crate::model::{texture_name, ElementView, FaceView};
use crate::pixels::{offset, ImageView, Rgba, RgbaImage};
use crate::raster::{drawn, Canvas};
use crate::reals::{
    is_finite, lemma_constants, lemma_difference_within, lemma_product_within,
    lemma_quotient_error, lemma_quotient_within, lemma_rounded, lemma_scaled, lemma_sum_within,
    lemma_whole_is_exact, size, worth,
};
use crate::render::{
    face_drawn, face_vertices, image_count, side_named, Projection, Scene, Side,
};
use crate::single::{units_in_one, Single, ONE};
use crate::webp::{law_frames_last_their_delay, shown_at, timed_frames};
use vstd::arithmetic::power2::lemma_pow2_pos;
use vstd::prelude::*;

verus! {

/// The ticks of the first `n` keyframes together.
pub open spec fn ticks_before(keys: Seq<(usize, u32)>, n: int) -> int
    decreases n,
{
    if n <= 0 {
        0
    } else {
        ticks_before(keys, n - 1) + keys[n - 1].1
    }
}

/// The number of the keyframe that follows, the first after the last.
pub open spec fn following(keys: Seq<(usize, u32)>, i: int) -> int {
    if i + 1 < keys.len() {
        i + 1
    } else {
        0
    }
}

proof fn lemma_fades_at(keys: Seq<(usize, u32)>, n: nat, i: int, tick: int)
    requires
        n <= keys.len(),
        0 <= i < n,
        0 <= tick < keys[i].1,
    ensures
        fades(keys, n).len() == ticks_before(keys, n as int),
        0 <= ticks_before(keys, i),
        ticks_before(keys, i) + tick < fades(keys, n).len(),
        fades(keys, n)[ticks_before(keys, i) + tick] == fade(keys, i)[tick],
    decreases n,
{
    lemma_fades_length(keys, (n - 1) as nat);
    lemma_fades_length(keys, i as nat);
    if i < n - 1 {
        lemma_fades_at(keys, (n - 1) as nat, i, tick);
    }
}

proof fn lemma_fades_length(keys: Seq<(usize, u32)>, n: nat)
    requires
        n <= keys.len(),
    ensures
        fades(keys, n).len() == ticks_before(keys, n as int),
    decreases n,
{
    if n > 0 {
        lemma_fades_length(keys, (n - 1) as nat);
    }
}

/// While frames fade into each other, each tick of a keyframe leads from the square of that
/// keyframe to the square of the one that follows it, the first after the last.
pub proof fn law_fades_lead_on(keys: Seq<(usize, u32)>, i: int, tick: int)
    requires
        0 <= i < keys.len(),
        0 <= tick < keys[i].1,
    ensures
        ({
            let all = shots(keys, true);
            let k = ticks_before(keys, i) + tick;
            &&& all.len() == ticks_before(keys, keys.len() as int)
            &&& 0 <= k < all.len()
            &&& all[k] == (Shot::Between {
                slice: keys[i].0 as int,
                next: keys[following(keys, i)].0 as int,
                tick: tick as u32,
                ticks: keys[i].1,
            })
        }),
{
    lemma_fades_at(keys, keys.len(), i, tick);
    if i + 1 == keys.len() {
        assert((i + 1) % (keys.len() as int) == 0) by (nonlinear_arith)
            requires
                i + 1 == keys.len(),
                0 <= i,
        ;
    } else {
        vstd::arithmetic::div_mod::lemma_small_mod((i + 1) as nat, keys.len());
    }
}

/// Each shot belongs to a tick of a keyframe.
proof fn lemma_located(keys: Seq<(usize, u32)>, n: nat, k: int) -> (at: (int, int))
    requires
        n <= keys.len(),
        0 <= k < ticks_before(keys, n as int),
    ensures
        0 <= at.0 < n,
        0 <= at.1 < keys[at.0].1,
        k == ticks_before(keys, at.0) + at.1,
    decreases n,
{
    if n == 0 {
        (0int, 0int)
    } else if k >= ticks_before(keys, n - 1) {
        ((n - 1) as int, k - ticks_before(keys, n - 1))
    } else {
        lemma_located(keys, (n - 1) as nat, k)
    }
}

/// The shot that comes next, the first after the last.
pub open spec fn shot_after(all: Seq<Shot>, k: int) -> Shot {
    if k + 1 < all.len() {
        all[k + 1]
    } else {
        all[0]
    }
}

/// Fading goes on without a jump: within a keyframe the next shot is one tick on, and what the
/// last tick of a keyframe leads to is what the next shot starts from.
pub proof fn law_fading_goes_on(keys: Seq<(usize, u32)>, k: int)
    requires
        forall|i: int| 0 <= i < keys.len() ==> (#[trigger] keys[i]).1 > 0,
        0 <= k < shots(keys, true).len(),
    ensures
        ({
            let all = shots(keys, true);
            &&& all[k] is Between
            &&& shot_after(all, k) is Between
            &&& all[k]->tick + 1 == all[k]->Between_ticks ==> {
                &&& shot_after(all, k)->Between_slice == all[k]->next
                &&& shot_after(all, k)->tick == 0
            }
            &&& all[k]->tick + 1 < all[k]->Between_ticks ==> {
                &&& shot_after(all, k)->Between_slice == all[k]->Between_slice
                &&& shot_after(all, k)->next == all[k]->next
                &&& shot_after(all, k)->Between_ticks == all[k]->Between_ticks
                &&& shot_after(all, k)->tick == all[k]->tick + 1
            }
        }),
{
    lemma_fades_length(keys, keys.len());
    let (i, tick) = lemma_located(keys, keys.len(), k);
    law_fades_lead_on(keys, i, tick);
    if tick + 1 < keys[i].1 {
        law_fades_lead_on(keys, i, tick + 1);
    } else {
        assert(keys[following(keys, i)].1 > 0);
        law_fades_lead_on(keys, following(keys, i), 0);
        if i + 1 < keys.len() {
            assert(ticks_before(keys, i + 1) == ticks_before(keys, i) + keys[i].1);
        }
    }
}

/// Without fading each keyframe is shown once, in turn, for as long as it says.
pub proof fn law_stills_are_shown_in_turn(keys: Seq<(usize, u32)>, i: int)
    requires
        0 <= i < keys.len(),
    ensures
        shots(keys, false).len() == keys.len(),
        shots(keys, false)[i] == (Shot::Still { slice: keys[i].0 as int, ticks: keys[i].1 }),
        shots(keys, false)[i].delay() == 50 * keys[i].1,
{
}

/// The squares of an image lie one below the other, each as high as the image is wide.
pub proof fn law_squares_lie_below_each_other(image: ImageView, i: int, x: int, y: int)
    requires
        image.is_full(),
        0 <= i < slice_count(image),
        0 <= x < image.width,
        0 <= y < image.width,
    ensures
        slice_of(image, i).width == image.width,
        slice_of(image, i).height == image.width,
        image.has(x, i * image.width + y),
        slice_of(image, i).pixel(x, y) == image.pixel(x, i * image.width + y),
{
    let (w, h) = (image.width as int, image.height as int);
    vstd::arithmetic::div_mod::lemma_fundamental_div_mod(h, w);
    let n = slice_count(image) as int;
    assert(n == h / w);
    assert(i * w + y < h && 0 <= i * w) by (nonlinear_arith)
        requires
            0 <= i < n,
            0 <= y < w,
            n * w <= h,
    ;
    assert(n * w <= h) by (nonlinear_arith)
        requires
            h == w * n + h % w,
            h % w >= 0,
    ;
    let size = 4 * (w * w);
    let at = offset(w, x, y);
    assert(0 <= at && at + 3 < size) by (nonlinear_arith)
        requires
            at == 4 * (y * w + x),
            size == 4 * (w * w),
            0 <= x < w,
            0 <= y < w,
    ;
    assert(size * i + at == offset(w, x, i * w + y)) by (nonlinear_arith)
        requires
            at == 4 * (y * w + x),
            size == 4 * (w * w),
            offset(w, x, i * w + y) == 4 * ((i * w + y) * w + x),
    ;
    assert(0 <= size * i && size * (i + 1) == size * i + size && size * (i + 1) <= 4 * (w * h))
        by (nonlinear_arith)
        requires
            size == 4 * (w * w),
            0 <= i < n,
            n * w <= h,
            w > 0,
    ;
}

/// There are as many squares as fit into an image.
pub proof fn law_as_many_squares_as_fit(image: ImageView)
    requires
        image.width > 0,
    ensures
        slice_count(image) * image.width <= image.height,
        image.height < (slice_count(image) + 1) * image.width,
{
    let (w, h) = (image.width as int, image.height as int);
    vstd::arithmetic::div_mod::lemma_fundamental_div_mod(h, w);
    let n = h / w;
    let r = h % w;
    assert(n * w <= h && h < (n + 1) * w) by (nonlinear_arith)
        requires
            h == w * n + r,
            0 <= r < w,
    ;
}

/// A texture is animated where it is higher than wide or has a second file, and fades just where
/// that file asks for it and fading is allowed.
pub proof fn law_what_is_animated(image: ImageView, animation: AnimationView, has_file: bool)
    ensures
        image.height > image.width ==> is_animated(image, has_file),
        is_animated(image, true),
        image.height <= image.width ==> !is_animated(image, false),
        is_interpolated(Some(animation), true) <==> animation.interpolate == Some(true),
        !is_interpolated(Some(animation), false),
        !is_interpolated(None, true),
        !is_interpolated(None, false),
{
}

/// A frame is shown for one tick, unless the second file gives another number.
pub proof fn law_ticks_of_a_frame(animation: AnimationView, ticks: u32)
    ensures
        base_frametime(None) == 1,
        animation.frametime is None ==> base_frametime(Some(animation)) == 1,
        animation.frametime == Some(ticks) ==> base_frametime(Some(animation)) == ticks,
{
}

/// Where no frames are listed, all squares are shown in order, each as long as the others.
pub proof fn law_squares_are_shown_in_order(
    animation: Option<AnimationView>,
    count: nat,
    i: int,
)
    requires
        animation matches Some(said) ==> said.frames is None,
        0 <= i < count <= usize::MAX,
    ensures
        keyframes(animation, count).len() == count,
        keyframes(animation, count)[i].0 == i,
        keyframes(animation, count)[i].1 == base_frametime(animation),
{
}

/// The same animation with another list of frames.
pub open spec fn listing(animation: AnimationView, items: Seq<ValueView>) -> Option<AnimationView> {
    Some(AnimationView { frames: Some(items), ..animation })
}

/// The number that a member gives, or another where it gives none.
pub open spec fn member_or(
    members: Map<Seq<char>, ScalarView>,
    key: Seq<char>,
    other: u64,
) -> u64 {
    if members.dom().contains(key) && members[key] is Unsigned {
        members[key]->Unsigned_0
    } else {
        other
    }
}

/// One more number in the list of frames shows that square once more, for as long as any; a number
/// that is not that of a square shows nothing.
pub proof fn law_listed_numbers(
    animation: AnimationView,
    items: Seq<ValueView>,
    count: nat,
    n: u64,
)
    requires
        n <= usize::MAX,
    ensures
        ({
            let before = keyframes(listing(animation, items), count);
            let after = keyframes(listing(animation, items.push(ValueView::Unsigned(n))), count);
            let ticks = match animation.frametime {
                Some(ticks) => ticks,
                None => 1,
            };
            &&& n < count ==> after == before.push((n as usize, ticks))
            &&& n >= count ==> after == before
        }),
{
    assert(items.push(ValueView::Unsigned(n)).drop_last() == items);
}

/// One more object in the list of frames shows the square with its index, the first where it
/// gives none, for as long as it says or else as any.
pub proof fn law_listed_objects(
    animation: AnimationView,
    items: Seq<ValueView>,
    count: nat,
    members: Map<Seq<char>, ScalarView>,
)
    requires
        member_or(members, "index"@, 0) <= usize::MAX,
        member_or(members, "time"@, 0) <= u32::MAX,
    ensures
        ({
            let before = keyframes(listing(animation, items), count);
            let after = keyframes(listing(animation, items.push(ValueView::Object(members))), count);
            let ticks = match animation.frametime {
                Some(ticks) => ticks,
                None => 1,
            };
            let index = member_or(members, "index"@, 0);
            let time = member_or(members, "time"@, ticks as u64);
            &&& index < count ==> after == before.push((index as usize, time as u32))
            &&& index >= count ==> after == before
        }),
{
    assert(items.push(ValueView::Object(members)).drop_last() == items);
}

/// Anything else in the list of frames changes nothing.
pub proof fn law_other_things_are_not_listed(
    animation: AnimationView,
    items: Seq<ValueView>,
    count: nat,
    item: ValueView,
)
    requires
        !(item is Unsigned) && !(item is Object),
    ensures
        keyframes(listing(animation, items.push(item)), count) == keyframes(
            listing(animation, items),
            count,
        ),
{
    assert(items.push(item).drop_last() == items);
}

/// Two lists of frames one after the other are shown one after the other.
pub proof fn law_lists_follow_each_other(
    animation: AnimationView,
    first: Seq<ValueView>,
    second: Seq<ValueView>,
    count: nat,
)
    ensures
        keyframes(listing(animation, first + second), count) == keyframes(
            listing(animation, first),
            count,
        ) + keyframes(listing(animation, second), count),
    decreases second.len(),
{
    if second.len() == 0 {
        assert(first + second == first);
        assert(listed_keyframes(second, count, base_frametime(Some(animation))).len() == 0);
    } else {
        let rest = second.drop_last();
        law_lists_follow_each_other(animation, first, rest, count);
        assert((first + second).drop_last() == first + rest);
        let (a, b) = (
            keyframes(listing(animation, first), count),
            keyframes(listing(animation, rest), count),
        );
        assert forall|key: (usize, u32)| (a + b).push(key) == a + #[trigger] b.push(key) by {
        }
    }
}

/// Whether a byte lies where the tick with number `tick` out of `ticks` does on the way from `a` to
/// `b`: the nearest whole number, but for a thousandth.
pub open spec fn is_on_the_way(byte: u8, a: u8, b: u8, tick: int, ticks: int) -> bool {
    -501 * ticks <= 1000 * (byte * ticks - (a * (ticks - tick) + b * tick)) <= 501 * ticks
}

/// Whether each of the four bytes of a pixel is on the way.
pub open spec fn is_pixel_on_the_way(p: Rgba, a: Rgba, b: Rgba, tick: int, ticks: int) -> bool {
    &&& is_on_the_way(p.r, a.r, b.r, tick, ticks)
    &&& is_on_the_way(p.g, a.g, b.g, tick, ticks)
    &&& is_on_the_way(p.b, a.b, b.b, tick, ticks)
    &&& is_on_the_way(p.a, a.a, b.a, tick, ticks)
}

/// How far the fade has come at a tick.
proof fn lemma_fraction(tick: u32, ticks: u32)
    requires
        tick < ticks < 0x100_0000,
    ensures
        ({
            let t = over(ieee(), whole(ieee(), tick as u64), whole(ieee(), ticks as u64));
            let f = tick as real / ticks as real;
            &&& is_finite(t)
            &&& 0 as real <= f <= 1 as real
            &&& size(worth(t) - f) <= 2 as real / 0x100_0000 as real
            &&& tick == 0 ==> t.value() == 0
        }),
{
    lemma_whole_is_exact(tick as u64);
    lemma_whole_is_exact(ticks as u64);
    let (a, b) = (whole(ieee(), tick as u64), whole(ieee(), ticks as u64));
    let t = over(ieee(), a, b);
    let (x, y) = (tick as real, ticks as real);
    let f = x / y;
    assert(0 as real <= f <= 1 as real) by (nonlinear_arith)
        requires
            f == x / y,
            0 as real <= x <= y,
            y > 0 as real,
    ;
    lemma_quotient_within(a, b, 1 as real);
    if tick == 0 {
        assert(f == 0 as real) by (nonlinear_arith)
            requires
                f == x / y,
                x == 0 as real,
                y > 0 as real,
        ;
        lemma_quotient_error(a, b);
        lemma_pow2_pos(149);
        let (v, q) = (t.value() as real, units_in_one() as real);
        let part = crate::reals::part();
        assert(part * size(f) == 0 as real) by (nonlinear_arith)
            requires
                size(f) == 0 as real,
        ;
        let s = crate::reals::speck();
        assert(-s <= v / q && v / q <= s);
        let w = v / q;
        assert(w * q == v) by (nonlinear_arith)
            requires
                w == v / q,
                q > 0 as real,
        ;
        let d = 2 as real * q;
        assert(s * d == 1 as real) by (nonlinear_arith)
            requires
                s == 1 as real / d,
                d > 0 as real,
        ;
        assert(s * d == 2 as real * (s * q)) by (nonlinear_arith)
            requires
                d == 2 as real * q,
        ;
        assert(-(s * q) <= w * q && w * q <= s * q) by (nonlinear_arith)
            requires
                -s <= w,
                w <= s,
                q > 0 as real,
        ;
    }
}

/// A blended byte lies near the real number between the two.
proof fn lemma_blended(a: u8, b: u8, t: Single, f: real)
    requires
        is_finite(t),
        0 as real <= f <= 1 as real,
        size(worth(t) - f) <= 2 as real / 0x100_0000 as real,
    ensures
        size(
            blended_byte(ieee(), a, b, t) as real - (a as real * (1 as real - f) + b as real * f),
        ) <= 501 as real / 1000 as real,
{
    lemma_constants();
    lemma_whole_is_exact(a as u64);
    lemma_whole_is_exact(b as u64);
    let (p, q) = (whole(ieee(), a as u64), whole(ieee(), b as u64));
    let one = Single { bits: ONE };
    let left = minus(ieee(), one, t);
    let (x, y, u) = (a as real, b as real, worth(t));
    lemma_difference_within(one, t, 2 as real);
    let v = worth(left);
    let e = 4 as real / 0x100_0000 as real;
    lemma_scaled(x, v - (1 as real - f), 255 as real, e);
    lemma_scaled(y, u - f, 255 as real, e);
    lemma_scaled(x, 1 as real - f, 255 as real, 1 as real);
    lemma_scaled(y, f, 255 as real, 1 as real);
    assert(x * (v - (1 as real - f)) == x * v - x * (1 as real - f)) by (nonlinear_arith);
    assert(y * (u - f) == y * u - y * f) by (nonlinear_arith);
    lemma_product_within(p, left, 256 as real);
    lemma_product_within(q, t, 256 as real);
    let (first, second) = (times(ieee(), p, left), times(ieee(), q, t));
    assert(0 as real <= x * (1 as real - f) && 0 as real <= y * f && x * (1 as real - f) + y * f
        <= 255 as real) by (nonlinear_arith)
        requires
            0 as real <= x <= 255 as real,
            0 as real <= y <= 255 as real,
            0 as real <= f <= 1 as real,
    ;
    lemma_sum_within(first, second, 512 as real);
    let sum = plus(ieee(), first, second);
    lemma_rounded(sum);
}

/// From a byte near a real number to one on the way.
proof fn lemma_on_the_way(byte: u8, a: u8, b: u8, tick: int, ticks: int)
    requires
        0 <= tick < ticks,
        size(
            byte as real - (a as real * (1 as real - tick as real / ticks as real) + b as real * (
            tick as real / ticks as real)),
        ) <= 501 as real / 1000 as real,
    ensures
        is_on_the_way(byte, a, b, tick, ticks),
{
    let (x, y, z, n, d) = (a as real, b as real, byte as real, tick as real, ticks as real);
    let f = n / d;
    assert(f * d == n) by (nonlinear_arith)
        requires
            f == n / d,
            d > 0 as real,
    ;
    let exact = x * (1 as real - f) + y * f;
    let off = z - exact;
    let (g, h, l) = (x * (1 as real - f), y * f, 1 as real - f);
    assert(l * d == d - f * d) by (nonlinear_arith)
        requires
            l == 1 as real - f,
    ;
    assert((x * l) * d == x * (l * d)) by (nonlinear_arith);
    assert((y * f) * d == y * (f * d)) by (nonlinear_arith);
    assert((z - (g + h)) * d == z * d - (g * d + h * d)) by (nonlinear_arith);
    let c = 501 as real / 1000 as real;
    assert(-(c * d) <= off * d && off * d <= c * d) by (nonlinear_arith)
        requires
            -c <= off,
            off <= c,
            d > 0 as real,
    ;
    crate::reals::lemma_whole_product(byte as int, ticks);
    crate::reals::lemma_whole_product(a as int, ticks - tick);
    crate::reals::lemma_whole_product(b as int, tick);
    let whole_off = byte * ticks - (a * (ticks - tick) + b * tick);
    assert(whole_off as real == off * d);
}

/// Where frames fade into each other, each keyframe starts with its own square.
pub proof fn law_fades_start_at_their_square(
    image: ImageView,
    keys: Seq<(usize, u32)>,
    frames: Seq<ImageView>,
    i: int,
)
    requires
        shows(ieee(), image, shots(keys, true), frames),
        0 <= i < keys.len(),
        0 < keys[i].1 < 0x100_0000,
    ensures
        0 <= ticks_before(keys, i) < frames.len(),
        frames[ticks_before(keys, i)] == slice_of(image, keys[i].0 as int),
{
    law_fades_lead_on(keys, i, 0);
    let k = ticks_before(keys, i) + 0;
    assert(shots(keys, true)[k].shown_by(ieee(), image, frames[k]));
    lemma_fraction(0, keys[i].1);
}

/// Where frames fade into each other, each tick of a keyframe shows every pixel as far on the way
/// from its own square to the one that follows as the tick is through the keyframe, to the nearest
/// byte.
pub proof fn law_fades_go_evenly(
    image: ImageView,
    keys: Seq<(usize, u32)>,
    frames: Seq<ImageView>,
    i: int,
    tick: int,
    x: int,
    y: int,
)
    requires
        shows(ieee(), image, shots(keys, true), frames),
        0 <= i < keys.len(),
        0 <= tick < keys[i].1 < 0x100_0000,
        0 <= x < image.width,
        0 <= y < image.width,
    ensures
        0 <= ticks_before(keys, i) + tick < frames.len(),
        is_pixel_on_the_way(
            frames[ticks_before(keys, i) + tick].pixel(x, y),
            slice_of(image, keys[i].0 as int).pixel(x, y),
            slice_of(image, keys[following(keys, i)].0 as int).pixel(x, y),
            tick,
            keys[i].1 as int,
        ),
{
    law_fades_lead_on(keys, i, tick);
    let k = ticks_before(keys, i) + tick;
    assert(shots(keys, true)[k].shown_by(ieee(), image, frames[k]));
    let ticks = keys[i].1;
    lemma_fraction(tick as u32, ticks);
    let t = over(ieee(), whole(ieee(), tick as u64), whole(ieee(), ticks as u64));
    let f = tick as real / ticks as real;
    let from = slice_of(image, keys[i].0 as int);
    let a = from.pixel(x, y);
    let b = slice_of(image, keys[following(keys, i)].0 as int).pixel(x, y);
    let p = frames[k].pixel(x, y);
    if t.value() == 0 {
        let q = units_in_one() as real;
        lemma_pow2_pos(149);
        assert((0 as real) / q == 0 as real) by (nonlinear_arith)
            requires
                q > 0 as real,
        ;
        assert(p == a);
        lemma_unmoved(a.r, b.r, f);
        lemma_unmoved(a.g, b.g, f);
        lemma_unmoved(a.b, b.b, f);
        lemma_unmoved(a.a, b.a, f);
    } else {
        assert(from.has(x, y));
        lemma_blended(a.r, b.r, t, f);
        lemma_blended(a.g, b.g, t, f);
        lemma_blended(a.b, b.b, t, f);
        lemma_blended(a.a, b.a, t, f);
    }
    lemma_on_the_way(p.r, a.r, b.r, tick, ticks as int);
    lemma_on_the_way(p.g, a.g, b.g, tick, ticks as int);
    lemma_on_the_way(p.b, a.b, b.b, tick, ticks as int);
    lemma_on_the_way(p.a, a.a, b.a, tick, ticks as int);
}

/// A byte that has hardly begun to change is near where it should be.
proof fn lemma_unmoved(a: u8, b: u8, f: real)
    requires
        0 as real <= f <= 2 as real / 0x100_0000 as real,
    ensures
        size(a as real - (a as real * (1 as real - f) + b as real * f)) <= 501 as real
            / 1000 as real,
{
    let (x, y) = (a as real, b as real);
    assert(x - (x * (1 as real - f) + y * f) == x * f - y * f) by (nonlinear_arith);
    lemma_scaled(x, f, 255 as real, 2 as real / 0x100_0000 as real);
    lemma_scaled(y, f, 255 as real, 2 as real / 0x100_0000 as real);
}

/// The frame with number `index` is shown at `index`.
pub proof fn law_frames_are_shown_in_turn(texture: TextureView, index: int)
    requires
        0 <= index < texture.frames.len(),
    ensures
        frame_at(texture, index) == texture.frames[index],
{
    vstd::arithmetic::div_mod::lemma_small_mod(index as nat, texture.frames.len());
}

/// A model is drawn once for each frame, and once where nothing moves.
pub proof fn law_one_image_for_each_frame(frames: usize)
    ensures
        frames >= 1 ==> image_count(frames) == frames,
        image_count(0) == 1,
{
}

/// The images of an animation follow each other from the start on, each with its own bytes and as
/// long after the one before as that is shown.
pub proof fn law_images_follow_each_other(
    frames: Seq<RgbaImage>,
    delays: Seq<u32>,
    n: int,
    i: int,
)
    requires
        0 <= i < n <= frames.len(),
        forall|k: nat| k <= n ==> i32::MIN <= #[trigger] shown_at(delays, k) <= i32::MAX,
        forall|k: int| 0 <= k < delays.len() ==> #[trigger] delays[k] <= i32::MAX,
    ensures
        ({
            let timed = timed_frames(frames, delays, n);
            &&& timed.len() == n
            &&& timed[i].0 == frames[i]@.bytes
            &&& timed[0].1 == 0
            &&& i + 1 < n ==> timed[i + 1].1 - timed[i].1 == (if i < delays.len() {
                delays[i] as int
            } else {
                250
            })
        }),
{
    assert(i32::MIN <= shown_at(delays, i as nat) <= i32::MAX);
    assert(i32::MIN <= shown_at(delays, (i + 1) as nat) <= i32::MAX);
    assert(shown_at(delays, 0) == 0);
    law_frames_last_their_delay(delays, i as nat);
}

/// The same scene at another moment, with one texture file that does not move.
pub open spec fn stopped(scene: Scene, file: Seq<char>, frame: ImageView) -> Scene {
    Scene {
        cache: scene.cache.insert(
            file,
            TextureView { frames: seq![frame], frame_delays_ms: Seq::empty() },
        ),
        frame_index: 0,
        ..scene
    }
}

/// A face whose texture is animated is drawn at each frame as one whose texture is just that frame.
pub proof fn law_faces_show_the_frame(
    sem: Meaning,
    to: Projection,
    scene: Scene,
    before: Canvas,
    element: ElementView,
    name: Seq<char>,
    face: FaceView,
)
    requires
        scene.cache.dom().contains(texture_name(scene.textures, face.texture)),
        0 <= scene.frame_index < scene.cache[texture_name(
            scene.textures,
            face.texture,
        )].frames.len(),
    ensures
        ({
            let file = texture_name(scene.textures, face.texture);
            let frame = scene.cache[file].frames[scene.frame_index];
            face_drawn(sem, to, scene, before, element, name, face) == face_drawn(
                sem,
                to,
                stopped(scene, file, frame),
                before,
                element,
                name,
                face,
            )
        }),
{
    let file = texture_name(scene.textures, face.texture);
    law_frames_are_shown_in_turn(scene.cache[file], scene.frame_index);
    let still = stopped(scene, file, scene.cache[file].frames[scene.frame_index]);
    law_frames_are_shown_in_turn(still.cache[file], 0);
}

/// A face is drawn as two triangles that meet along the line from its upper right to its lower
/// left corner: one with the upper left corner, and one with the lower right corner.
pub proof fn law_faces_are_two_triangles(
    sem: Meaning,
    to: Projection,
    scene: Scene,
    before: Canvas,
    element: ElementView,
    side: Side,
    face: FaceView,
    name: Seq<char>,
)
    requires
        side_named(name) == Some(side),
        scene.cache.dom().contains(texture_name(scene.textures, face.texture)),
    ensures
        ({
            let tex = frame_at(
                scene.cache[texture_name(scene.textures, face.texture)],
                scene.frame_index,
            );
            let n = scene.size;
            let (upper_left, upper_right, lower_left, lower_right) = face_vertices(
                sem,
                to,
                element,
                side,
                face,
                n,
            );
            let half = drawn(sem, before, n, n, upper_left, upper_right, lower_left, tex);
            face_drawn(sem, to, scene, before, element, name, face) == drawn(
                sem,
                half,
                n,
                n,
                upper_right,
                lower_right,
                lower_left,
                tex,
            )
        }),
{
}

/// An animation can be played where its image has some width and no frame is shown longer than
/// can be counted; where it fades, each shot is one tick and any length will do. What is not
/// animated can always be shown.
pub proof fn law_what_can_be_played(
    image: ImageView,
    has_file: bool,
    animation: Option<AnimationView>,
    allowed: bool,
)
    ensures
        ({
            let can = is_playable(image, has_file, animation, allowed);
            let moves = is_animated(image, has_file);
            let fading = is_interpolated(animation, allowed);
            let keys = keyframes(animation, slice_count(image));
            &&& !moves ==> can
            &&& moves && image.width == 0 ==> !can
            &&& moves && image.width > 0 && fading ==> can
            &&& moves && image.width > 0 && !fading ==> (can <==> forall|i: int|
                0 <= i < keys.len() ==> 50 * (#[trigger] keys[i]).1 <= u32::MAX)
        }),
{
    let keys = keyframes(animation, slice_count(image));
    assert(times_fit(keys) <==> forall|i: int|
        0 <= i < keys.len() ==> 50 * (#[trigger] keys[i]).1 <= u32::MAX);
}

}
