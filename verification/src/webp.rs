//! Animated WebP files: when each frame is shown, and how the frames are encoded.
use crate::pixels::RgbaImage;
use vstd::prelude::*;

verus! {

/// For how long a frame is shown of which nothing is said, in milliseconds.
pub const DEFAULT_DELAY_MS: i32 = 250;

/// The encoder of the `webp_animation` crate.
#[verifier::external_type_specification]
#[verifier::external_body]
pub struct ExEncoder(webp_animation::Encoder);

/// The encoded bytes, as the `webp_animation` crate hands them out.
#[verifier::external_type_specification]
#[verifier::external_body]
pub struct ExWebPData(webp_animation::WebPData);

/// What the `webp_animation` crate reports when it fails.
#[verifier::external_type_specification]
#[verifier::external_body]
pub struct ExError(webp_animation::Error);

/// The frames that an encoder has accepted, each with its bytes and its time.
pub uninterp spec fn encoder_frames(encoder: webp_animation::Encoder) -> Seq<(Seq<u8>, i32)>;

/// The width and the height that an encoder was made for.
pub uninterp spec fn encoder_size(encoder: webp_animation::Encoder) -> (u32, u32);

/// The frames that encoded bytes were made of, each with its bytes and its time.
pub uninterp spec fn data_frames(data: webp_animation::WebPData) -> Seq<(Seq<u8>, i32)>;

/// The width and the height of the animation that encoded bytes were made of.
pub uninterp spec fn data_size(data: webp_animation::WebPData) -> (u32, u32);

/// The time at which the animation that encoded bytes were made of ends.
pub uninterp spec fn data_end(data: webp_animation::WebPData) -> i32;

/// The time of the last frame, -1 where there is none.
pub open spec fn last_time(frames: Seq<(Seq<u8>, i32)>) -> int {
    if frames.len() == 0 {
        -1
    } else {
        frames.last().1 as int
    }
}

/// `webp_animation::Encoder::new`: an encoder for the given width and height that has
/// accepted no frame. It fails where one of them is 0 or does not fit a signed
/// number, and where there are too many pixels; it may also fail elsewhere.
pub assume_specification[ webp_animation::Encoder::new ](dimensions: (u32, u32)) -> (r: Result<
    webp_animation::Encoder,
    webp_animation::Error,
>)
    ensures
        r matches Ok(encoder) ==> {
            &&& 0 < dimensions.0 <= i32::MAX
            &&& 0 < dimensions.1 <= i32::MAX
            &&& dimensions.0 * dimensions.1 < 0x1_0000_0000
            &&& encoder_size(encoder) == dimensions
            &&& encoder_frames(encoder) == Seq::<(Seq<u8>, i32)>::empty()
        },
;

/// `webp_animation::Encoder::add_frame`: the encoder accepts one frame more, to be shown from
/// the given time on. It fails where that is not later than the time of the frame before, or
/// where there are not four bytes to a pixel; it may also fail elsewhere. What an encoder has
/// accepted once it failed is not said. It computes the number of bytes in a row as a signed
/// number and that in a frame as an unsigned one, so both have to fit.
pub assume_specification[ webp_animation::Encoder::add_frame ](
    encoder: &mut webp_animation::Encoder,
    data: &[u8],
    timestamp_ms: i32,
) -> (r: Result<(), webp_animation::Error>)
    requires
        encoder_size(*old(encoder)).0 * 4 <= i32::MAX,
        encoder_size(*old(encoder)).0 * encoder_size(*old(encoder)).1 * 4 <= usize::MAX,
    ensures
        encoder_size(*final(encoder)) == encoder_size(*old(encoder)),
        r is Ok ==> {
            &&& timestamp_ms > last_time(encoder_frames(*old(encoder)))
            &&& data@.len() == encoder_size(*old(encoder)).0 * encoder_size(*old(encoder)).1 * 4
            &&& encoder_frames(*final(encoder)) == encoder_frames(*old(encoder)).push(
                (data@, timestamp_ms),
            )
        },
;

/// `webp_animation::Encoder::finalize`: the bytes made of the accepted frames, the last of
/// which is shown until the given time. It fails where there is no frame, or where that time is
/// before the time of the last frame; it may also fail elsewhere. What the bytes are is not
/// said: it depends on the version of the WebP library that is linked.
pub assume_specification[ webp_animation::Encoder::finalize ](
    encoder: webp_animation::Encoder,
    timestamp_ms: i32,
) -> (r: Result<webp_animation::WebPData, webp_animation::Error>)
    ensures
        r matches Ok(data) ==> {
            &&& encoder_frames(encoder).len() > 0
            &&& timestamp_ms >= last_time(encoder_frames(encoder))
            &&& data_frames(data) == encoder_frames(encoder)
            &&& data_size(data) == encoder_size(encoder)
            &&& data_end(data) == timestamp_ms
        },
;

/// A step of encoding.
#[derive(Clone, Copy, Debug, PartialEq, Eq, Structural)]
pub enum Step {
    /// An encoder is made for the size.
    Start,
    /// The frame with the given number is handed to the encoder.
    Frame(usize),
    /// The accepted frames are put together.
    Finish,
}

/// Why there is no animation.
#[derive(Debug, PartialEq)]
pub enum EncodeError {
    /// No encoder could be made for the size.
    Start(webp_animation::Error),
    /// A frame of the size does not fit into memory.
    TooLarge,
    /// The frame with the given number was not accepted.
    Frame(usize, webp_animation::Error),
    /// The accepted frames could not be put together.
    Finish(webp_animation::Error),
}

/// The error of a step that failed for the given cause.
pub open spec fn failure(step: Step, cause: webp_animation::Error) -> EncodeError {
    match step {
        Step::Start => EncodeError::Start(cause),
        Step::Frame(i) => EncodeError::Frame(i, cause),
        Step::Finish => EncodeError::Finish(cause),
    }
}

/// What was tried at a step; where it failed, the error says at which step and why.
pub fn at_step<T>(tried: Result<T, webp_animation::Error>, step: Step) -> (r: Result<
    T,
    EncodeError,
>)
    ensures
        match tried {
            Ok(value) => r == Ok::<T, EncodeError>(value),
            Err(cause) => r == Err::<T, EncodeError>(failure(step, cause)),
        },
{
    match tried {
        Ok(value) => Ok(value),
        Err(cause) => Err(
            match step {
                Step::Start => EncodeError::Start(cause),
                Step::Frame(i) => EncodeError::Frame(i, cause),
                Step::Finish => EncodeError::Finish(cause),
            },
        ),
    }
}

/// For how long frame `i` is shown, in milliseconds.
pub open spec fn delay_of(delays: Seq<u32>, i: int) -> i32 {
    if i < delays.len() {
        delays[i] as i32
    } else {
        DEFAULT_DELAY_MS
    }
}

/// When frame `i` is shown first: after all frames before it.
pub open spec fn shown_at(delays: Seq<u32>, i: nat) -> int
    decreases i,
{
    if i == 0 {
        0
    } else {
        shown_at(delays, (i - 1) as nat) + delay_of(delays, i - 1)
    }
}

/// Whether frame `i` is shown before the one after it.
pub open spec fn is_before_next(delays: Seq<u32>, i: nat) -> bool {
    shown_at(delays, i) < shown_at(delays, (i + 1) as nat)
}

/// Whether each of the first `n` frames is shown before the one after it.
pub open spec fn times_increase(delays: Seq<u32>, n: nat) -> bool {
    forall|i: nat| i < n ==> #[trigger] is_before_next(delays, i)
}

/// Whether a canvas can be `size` wide and high.
pub open spec fn is_canvas_size(size: u32) -> bool {
    0 < size && size * size < 0x1_0000_0000
}

/// Whether the first `n` frames can be shown one after the other on a canvas that is `size` wide
/// and high: each fills it, and each is shown later than the one before.
pub open spec fn can_follow(frames: Seq<RgbaImage>, delays: Seq<u32>, size: u32, n: int) -> bool {
    &&& is_canvas_size(size)
    &&& forall|k: int| 0 <= k < n ==> (#[trigger] frames[k])@.bytes.len() == size * size * 4
    &&& n > 0 ==> times_increase(delays, (n - 1) as nat)
}

/// Whether the time at which a frame ends can be counted, for each frame that can follow those
/// before it.
pub open spec fn times_can_be_counted(
    frames: Seq<RgbaImage>,
    delays: Seq<u32>,
    size: u32,
) -> bool {
    forall|i: int|
        1 <= i <= frames.len() && #[trigger] can_follow(frames, delays, size, i) ==> i32::MIN
            <= shown_at(delays, i as nat) <= i32::MAX
}

/// The frames with their times.
pub open spec fn timed_frames(frames: Seq<RgbaImage>, delays: Seq<u32>, n: int) -> Seq<
    (Seq<u8>, i32),
> {
    Seq::new(n as nat, |i: int| (frames[i]@.bytes, shown_at(delays, i as nat) as i32))
}

/// For how long frame `i` is shown.
fn get_delay(delays: &Vec<u32>, i: usize) -> (r: i32)
    ensures
        r == delay_of(delays@, i as int),
{
    if i < delays.len() {
        delays[i] as i32
    } else {
        DEFAULT_DELAY_MS
    }
}

/// Whether a canvas can be `size` wide and high.
fn has_canvas_size(size: u32) -> (r: bool)
    ensures
        r == is_canvas_size(size),
        r ==> size < 0x1_0000,
{
    proof {
        if is_canvas_size(size) {
            assert(size < 0x1_0000) by (nonlinear_arith)
                requires
                    0 < size,
                    size * size < 0x1_0000_0000,
            ;
        }
        if size < 0x1_0000 {
            assert(size * size < 0x1_0000_0000) by (nonlinear_arith)
                requires
                    0 <= size < 0x1_0000,
            ;
        }
    }
    0 < size && size < 0x1_0000
}

/// The number of bytes of a frame that is `size` wide and high.
fn frame_bytes(size: u32) -> (r: u64)
    requires
        size < 0x1_0000,
    ensures
        r == size * size * 4,
{
    assert(size * size < 0x1_0000_0000) by (nonlinear_arith)
        requires
            0 <= size < 0x1_0000,
    ;
    size as u64 * size as u64 * 4
}

/// Whether the times of the first `n` frames can be counted.
spec fn counted_up_to(frames: Seq<RgbaImage>, delays: Seq<u32>, size: u32, n: int) -> bool {
    forall|i: int|
        1 <= i <= n && #[trigger] can_follow(frames, delays, size, i) ==> i32::MIN <= shown_at(
            delays,
            i as nat,
        ) <= i32::MAX
}

/// Where frame `n` cannot follow, or none can follow it, all that is to be counted is counted.
proof fn lemma_counted(frames: Seq<RgbaImage>, delays: Seq<u32>, size: u32, n: int)
    requires
        0 <= n < frames.len(),
        counted_up_to(frames, delays, size, n),
        frames[n]@.bytes.len() != size * size * 4 || (shown_at(delays, (n + 1) as nat) <= shown_at(
            delays,
            n as nat,
        ) && i32::MIN <= shown_at(delays, (n + 1) as nat) <= i32::MAX),
    ensures
        times_can_be_counted(frames, delays, size),
{
    assert forall|i: int|
        1 <= i <= frames.len() && #[trigger] can_follow(frames, delays, size, i) implies i32::MIN
        <= shown_at(delays, i as nat) <= i32::MAX by {
        if i > n {
            assert(frames[n]@.bytes.len() == size * size * 4);
        }
        if i > n + 1 {
            assert(is_before_next(delays, n as nat));
        }
    }
}

/// Whether the times of the frames can be counted: see [`times_can_be_counted`].
pub fn can_count_times(frames: &Vec<RgbaImage>, delays: &Vec<u32>, size: u32) -> (r: bool)
    ensures
        r == times_can_be_counted(frames@, delays@, size),
{
    if !has_canvas_size(size) {
        return true;
    }
    let bytes = frame_bytes(size);
    let mut time: i32 = 0;
    let mut i: usize = 0;
    while i < frames.len()
        invariant
            bytes == size * size * 4,
            i <= frames@.len(),
            time == shown_at(delays@, i as nat),
            can_follow(frames@, delays@, size, i as int),
            times_increase(delays@, i as nat),
            counted_up_to(frames@, delays@, size, i as int),
        decreases frames.len() - i,
    {
        if frames[i].as_raw().len() as u64 != bytes {
            proof {
                lemma_counted(frames@, delays@, size, i as int);
            }
            return true;
        }
        assert(can_follow(frames@, delays@, size, i + 1));
        let next: i64 = time as i64 + get_delay(delays, i) as i64;
        assert(next == shown_at(delays@, (i + 1) as nat));
        if next < i32::MIN as i64 || next > i32::MAX as i64 {
            return false;
        }
        if next <= time as i64 {
            proof {
                lemma_counted(frames@, delays@, size, i as int);
            }
            return true;
        }
        time = next as i32;
        i += 1;
    }
    true
}

/// Whether no encoder was made for a canvas that is `size` wide and high, for the given cause.
pub open spec fn start_fails(size: u32, cause: webp_animation::Error) -> bool {
    call_ensures(
        webp_animation::Encoder::new,
        ((size, size),),
        Err::<webp_animation::Encoder, webp_animation::Error>(cause),
    )
}

/// Whether an encoder for a canvas that is `size` wide and high, which had accepted the frames
/// `before`, did not accept one more with the given bytes and time, for the given cause.
pub open spec fn frame_fails(
    size: u32,
    before: Seq<(Seq<u8>, i32)>,
    bytes: Seq<u8>,
    time: i32,
    cause: webp_animation::Error,
) -> bool {
    exists|encoder: &mut webp_animation::Encoder, data: &[u8]|
        {
            &&& #[trigger] call_ensures(
                webp_animation::Encoder::add_frame,
                (encoder, data, time),
                Err::<(), webp_animation::Error>(cause),
            )
            &&& encoder_size(*encoder) == (size, size)
            &&& encoder_frames(*encoder) == before
            &&& data@ == bytes
        }
}

/// Whether an encoder for a canvas that is `size` wide and high, which had accepted the given
/// frames, did not put them together, for the given cause.
pub open spec fn finish_fails(
    size: u32,
    frames: Seq<(Seq<u8>, i32)>,
    end: i32,
    cause: webp_animation::Error,
) -> bool {
    exists|encoder: webp_animation::Encoder|
        {
            &&& #[trigger] call_ensures(
                webp_animation::Encoder::finalize,
                (encoder, end),
                Err::<webp_animation::WebPData, webp_animation::Error>(cause),
            )
            &&& encoder_size(encoder) == (size, size)
            &&& encoder_frames(encoder) == frames
        }
}

/// The animation of the given frames, each shown for its delay, on a canvas that is
/// `size` wide and high. A frame without delay is shown for a quarter of a second.
///
/// An error says how far encoding came, and what the encoder gave as the cause. What can not be
/// encoded is not: where there are no frames, where a frame does not fill the canvas, where it is
/// not shown later than the one before, or where the last one ends before it is shown.
pub fn encode_animated_webp(
    frames: &Vec<RgbaImage>,
    frame_delays_ms: &Vec<u32>,
    size: u32,
) -> (r: Result<webp_animation::WebPData, EncodeError>)
    requires
        times_can_be_counted(frames@, frame_delays_ms@, size),
    ensures
        match r {
            Ok(data) => {
                &&& frames@.len() > 0
                &&& can_follow(frames@, frame_delays_ms@, size, frames@.len() as int)
                &&& delay_of(frame_delays_ms@, frames@.len() - 1) >= 0
                &&& data_frames(data) == timed_frames(
                    frames@,
                    frame_delays_ms@,
                    frames@.len() as int,
                )
                &&& data_end(data) == shown_at(frame_delays_ms@, frames@.len())
                &&& data_size(data) == (size, size)
            },
            Err(EncodeError::Start(cause)) => start_fails(size, cause),
            Err(EncodeError::TooLarge) => true,
            Err(EncodeError::Frame(i, cause)) => {
                &&& i < frames@.len()
                &&& can_follow(frames@, frame_delays_ms@, size, i as int)
                &&& frame_fails(
                    size,
                    timed_frames(frames@, frame_delays_ms@, i as int),
                    frames@[i as int]@.bytes,
                    shown_at(frame_delays_ms@, i as nat) as i32,
                    cause,
                )
            },
            Err(EncodeError::Finish(cause)) => {
                &&& can_follow(frames@, frame_delays_ms@, size, frames@.len() as int)
                &&& finish_fails(
                    size,
                    timed_frames(frames@, frame_delays_ms@, frames@.len() as int),
                    shown_at(frame_delays_ms@, frames@.len()) as i32,
                    cause,
                )
            },
        },
        r matches Err(EncodeError::TooLarge) <==> is_canvas_size(size) && size * size * 4
            > usize::MAX,
{
    let ghost delays = frame_delays_ms@;
    // Where addresses are short, a frame may not fit into memory.
    if has_canvas_size(size) && frame_bytes(size) > usize::MAX as u64 {
        return Err(EncodeError::TooLarge);
    }
    let mut encoder = match at_step(webp_animation::Encoder::new((size, size)), Step::Start) {
        Ok(encoder) => encoder,
        Err(error) => return Err(error),
    };
    proof {
        assert(size < 0x1_0000) by (nonlinear_arith)
            requires
                0 < size,
                size * size < 0x1_0000_0000,
        ;
    }
    let mut timestamp: i32 = 0;
    let mut i: usize = 0;
    while i < frames.len()
        invariant
            delays == frame_delays_ms@,
            times_can_be_counted(frames@, delays, size),
            size < 0x1_0000,
            size * size * 4 <= usize::MAX,
            i <= frames@.len(),
            timestamp == shown_at(delays, i as nat),
            forall|k: nat| k <= i ==> i32::MIN <= #[trigger] shown_at(delays, k) <= i32::MAX,
            encoder_size(encoder) == (size, size),
            encoder_frames(encoder) == timed_frames(frames@, delays, i as int),
            can_follow(frames@, delays, size, i as int),
        decreases frames.len() - i,
    {
        let ghost before = encoder_frames(encoder);
        let data = frames[i].as_raw().as_slice();
        let ghost handed = encoder;
        let tried = encoder.add_frame(data, timestamp);
        proof {
            if tried is Err {
                let cause = tried->Err_0;
                assert(exists|e: &mut webp_animation::Encoder| #[trigger]
                    call_ensures(
                        webp_animation::Encoder::add_frame,
                        (e, data, timestamp),
                        Err::<(), webp_animation::Error>(cause),
                    ) && *e == handed);
                assert(frame_fails(size, before, frames@[i as int]@.bytes, timestamp, cause));
            }
        }
        match at_step(tried, Step::Frame(i)) {
            Ok(_) => {},
            Err(error) => return Err(error),
        }
        proof {
            assert(encoder_frames(encoder) =~= timed_frames(frames@, delays, i + 1));
            assert(times_increase(delays, i as nat)) by {
                if i > 0 {
                    assert(before.last().1 == shown_at(delays, (i - 1) as nat));
                    assert(is_before_next(delays, (i - 1) as nat));
                }
            }
            assert(can_follow(frames@, delays, size, i + 1));
        }
        let delay = get_delay(frame_delays_ms, i);
        timestamp = timestamp + delay;
        i += 1;
    }
    assert(i > 0 ==> encoder_frames(encoder).last().1 == shown_at(delays, (i - 1) as nat));
    let ghost made = encoder;
    let tried = encoder.finalize(timestamp);
    proof {
        if tried is Err {
            let cause = tried->Err_0;
            assert(call_ensures(
                webp_animation::Encoder::finalize,
                (made, timestamp),
                Err::<webp_animation::WebPData, webp_animation::Error>(cause),
            ));
            assert(finish_fails(size, encoder_frames(made), timestamp, cause));
        }
    }
    at_step(tried, Step::Finish)
}

/// Each frame is shown for its delay, or for a quarter of a second where it has none.
pub proof fn law_frames_last_their_delay(delays: Seq<u32>, i: nat)
    requires
        i < delays.len() ==> delays[i as int] <= i32::MAX,
    ensures
        shown_at(delays, (i + 1) as nat) - shown_at(delays, i) == (if i < delays.len() {
            delays[i as int] as int
        } else {
            250
        }),
{
}

/// Where each frame is shown for some time, each is shown before the one after it.
pub proof fn law_times_increase(delays: Seq<u32>, n: nat)
    requires
        forall|i: int| 0 <= i < delays.len() ==> 0 < #[trigger] delays[i] <= i32::MAX,
    ensures
        times_increase(delays, n),
{
    assert forall|i: nat| i < n implies #[trigger] is_before_next(delays, i) by {
        law_frames_last_their_delay(delays, i);
    }
}

}
