//! Frames of the input image: decoding them, which decoded frames become
//! output frames, the number of output frames, and the size of the frames
//! after rotation. Scaling is done around this by the caller.
use crate::blueprint::same_text;
use crate::blueprint::util::spec_rgb_value;
use crate::constants::{DEFAULT_FRAME_DELAY_MS, MS_PER_S};
use crate::image_utils::{
    animation_info, duration_from_millis, is_gif_header, is_webp_header, millis_to_duration,
    spec_gif_info, spec_webp_info, AnimationInfo,
};
use crate::models::{ImageRotation, Mode};
use vstd::prelude::*;

verus! {

/// Converts an RGB pixel to a single 24-bit integer, `0xRRGGBB`.
pub fn rgb_to_int(r: u8, g: u8, b: u8) -> (v: u32)
    ensures
        v == spec_rgb_value(r, g, b),
{
    let v = ((r as u32) << 16) | ((g as u32) << 8) | (b as u32);
    assert(((r as u32) << 16) | ((g as u32) << 8) | (b as u32) == (r as u32) * 65536 + (g as u32)
        * 256 + (b as u32)) by (bit_vector);
    v
}

/// The number of whole output frames in `n_ms` milliseconds at `fps`
/// frames per second, plus the one at the start.
pub open spec fn spec_expected_output_frames(n_ms: u32, fps: u32) -> int {
    ((n_ms as int * fps as int) / 1000) as u32 + 1
}

/// The number of output frames of an animation of `n_ms` milliseconds at
/// `fps` frames per second: one at the start and one per elapsed period.
pub fn expected_output_frames(n_ms: u32, fps: u32) -> (r: u32)
    requires
        (((n_ms as int * fps as int) / 1000) as u32) < u32::MAX,
    ensures
        r == spec_expected_output_frames(n_ms, fps),
{
    proof {
        assert(n_ms as int * fps as int <= u32::MAX as int * u32::MAX as int) by (nonlinear_arith);
    }
    let q = ((n_ms as u64) * (fps as u64)) / 1000;
    (q as u32) + 1
}

/// The number of output frames for `mode`: one for a still image, else one
/// per period of the target frame rate (at least one per second) over the
/// animation's duration.
pub fn output_frame_count(mode: &Mode, duration_ms: u32, target_fps: u32) -> (r: u32)
    requires
        (((duration_ms as int * (if target_fps >= 1 { target_fps as int } else { 1int })) / 1000) as u32)
            < u32::MAX,
    ensures
        mode is Static ==> r == 1,
        !(mode is Static) ==> r == spec_expected_output_frames(
            duration_ms,
            if target_fps >= 1 {
                target_fps
            } else {
                1
            },
        ),
{
    match mode {
        Mode::Static { .. } => 1,
        _ => {
            let fps = if target_fps >= 1 {
                target_fps
            } else {
                1
            };
            expected_output_frames(duration_ms, fps)
        },
    }
}

/// The size of a `width` by `height` frame after rotation: a quarter turn
/// either way swaps the two.
pub fn oriented_dimensions(width: u32, height: u32, rotation: ImageRotation) -> (r: (u32, u32))
    ensures
        (rotation == ImageRotation::Deg90 || rotation == ImageRotation::Deg270) ==> r == (
            height,
            width,
        ),
        !(rotation == ImageRotation::Deg90 || rotation == ImageRotation::Deg270) ==> r == (
            width,
            height,
        ),
{
    match rotation {
        ImageRotation::Deg90 | ImageRotation::Deg270 => (height, width),
        _ => (width, height),
    }
}

/// What to do next to produce an output frame.
#[derive(Clone, Copy, Debug, PartialEq, Eq, Structural)]
pub enum ClockAction {
    /// Output the last decoded frame once more.
    EmitPrevious,
    /// Decode the next input frame and hand its delay to `fetched`.
    Fetch,
}

/// The timing of output frames against the input frames: the input time
/// reached so far, the output frames given, the input frames read.
pub struct FrameClock {
    target_fps: u32,
    curr_n_ms: u32,
    samp_i: u32,
    frame_i: u32,
    has_prev: bool,
}

/// The time of output frame `samp_i` at `fps` frames per second, in
/// milliseconds.
pub open spec fn spec_out_t_ms(samp_i: u32, fps: u32) -> int {
    (samp_i as int * MS_PER_S as int) / (fps as int)
}

/// The delay of an input frame: its own, or the default for none.
pub open spec fn spec_frame_delay(ms: u32) -> u32 {
    if ms == 0 {
        DEFAULT_FRAME_DELAY_MS
    } else {
        ms
    }
}

impl FrameClock {
    /// The target frame rate.
    pub closed spec fn spec_fps(&self) -> u32 {
        self.target_fps
    }

    /// The input time reached, in milliseconds.
    pub closed spec fn spec_input_ms(&self) -> u32 {
        self.curr_n_ms
    }

    /// The output frames given so far.
    pub closed spec fn spec_samples(&self) -> u32 {
        self.samp_i
    }

    /// The input frames read so far.
    pub closed spec fn spec_frames_read(&self) -> u32 {
        self.frame_i
    }

    /// Whether an input frame has been read.
    pub closed spec fn spec_has_prev(&self) -> bool {
        self.has_prev
    }

    /// Consistent state: a positive frame rate, and no input time before
    /// the first input frame.
    pub closed spec fn wf(&self) -> bool {
        &&& self.target_fps >= 1
        &&& !self.has_prev ==> self.curr_n_ms == 0 && self.frame_i == 0
    }

    /// A clock at the start, for `target_fps` output frames per second.
    pub fn new(target_fps: u32) -> (c: Self)
        requires
            target_fps >= 1,
        ensures
            c.wf(),
            c.spec_fps() == target_fps,
            c.spec_input_ms() == 0,
            c.spec_samples() == 0,
            c.spec_frames_read() == 0,
            !c.spec_has_prev(),
    {
        FrameClock { target_fps, curr_n_ms: 0, samp_i: 0, frame_i: 0, has_prev: false }
    }

    /// The time of the next output frame, in milliseconds.
    pub fn out_t_ms(&self) -> (t: u32)
        requires
            self.wf(),
            self.spec_samples() * MS_PER_S <= u32::MAX,
        ensures
            t == spec_out_t_ms(self.spec_samples(), self.spec_fps()),
    {
        (self.samp_i * MS_PER_S) / self.target_fps
    }

    /// Decides the next step: once a frame has been read and the next
    /// output time has not passed the input time, that frame is output once
    /// more (and counted); otherwise the next input frame is needed.
    pub fn decide(&mut self) -> (a: ClockAction)
        requires
            old(self).wf(),
            old(self).spec_samples() * MS_PER_S <= u32::MAX,
            old(self).spec_samples() < u32::MAX,
        ensures
            final(self).wf(),
            final(self).spec_fps() == old(self).spec_fps(),
            final(self).spec_input_ms() == old(self).spec_input_ms(),
            final(self).spec_frames_read() == old(self).spec_frames_read(),
            final(self).spec_has_prev() == old(self).spec_has_prev(),
            ({
                let due = old(self).spec_has_prev() && spec_out_t_ms(
                    old(self).spec_samples(),
                    old(self).spec_fps(),
                ) <= old(self).spec_input_ms();
                &&& due ==> a == ClockAction::EmitPrevious && final(self).spec_samples()
                    == old(self).spec_samples() + 1
                &&& !due ==> a == ClockAction::Fetch && final(self).spec_samples()
                    == old(self).spec_samples()
            }),
    {
        if self.has_prev && self.out_t_ms() <= self.curr_n_ms {
            self.samp_i = self.samp_i + 1;
            ClockAction::EmitPrevious
        } else {
            ClockAction::Fetch
        }
    }

    /// Records an input frame of `delay_ms` milliseconds (0 meaning the
    /// default delay): the input time moves past it.
    pub fn fetched(&mut self, delay_ms: u32)
        requires
            old(self).wf(),
            old(self).spec_input_ms() + spec_frame_delay(delay_ms) <= u32::MAX,
            old(self).spec_frames_read() < u32::MAX,
        ensures
            final(self).wf(),
            final(self).spec_fps() == old(self).spec_fps(),
            final(self).spec_input_ms() == old(self).spec_input_ms() + spec_frame_delay(delay_ms),
            final(self).spec_samples() == old(self).spec_samples(),
            final(self).spec_frames_read() == old(self).spec_frames_read() + 1,
            final(self).spec_has_prev(),
    {
        let delay = if delay_ms == 0 {
            DEFAULT_FRAME_DELAY_MS
        } else {
            delay_ms
        };
        self.curr_n_ms = self.curr_n_ms + delay;
        self.frame_i = self.frame_i + 1;
        self.has_prev = true;
    }

    /// The output frames given so far.
    pub fn samples(&self) -> (n: u32)
        ensures
            n == self.spec_samples(),
    {
        self.samp_i
    }

    /// The input time reached, in milliseconds.
    pub fn input_ms(&self) -> (n: u32)
        ensures
            n == self.spec_input_ms(),
    {
        self.curr_n_ms
    }

    /// The input frames read so far.
    pub fn frames_read(&self) -> (n: u32)
        ensures
            n == self.spec_frames_read(),
    {
        self.frame_i
    }
}

// ---------------------------------------------------------------------------
// Decoding
// ---------------------------------------------------------------------------

/// One decoded frame: its size, its pixels as RGBA bytes row by row, and
/// the numerator of its delay in milliseconds.
#[derive(Clone)]
pub struct DecodedFrame {
    pub width: u32,
    pub height: u32,
    pub rgba: Vec<u8>,
    pub delay_ms: u32,
}

impl DecodedFrame {
    /// The frame as plain values: width, height, bytes and delay.
    pub open spec fn parts(&self) -> (u32, u32, Seq<u8>, u32) {
        (self.width, self.height, self.rgba@, self.delay_ms)
    }
}

/// The frames of an input image, its size, and its frame count and play
/// time.
pub struct DecodedImage {
    pub width: u32,
    pub height: u32,
    pub frames: Vec<DecodedFrame>,
    pub info: AnimationInfo,
}

/// What the `image` crate's GIF decoder gives for `data`: the canvas size
/// and every frame (as `DecodedFrame::parts`), or nothing where it fails.
pub uninterp spec fn gif_decoded(data: Seq<u8>) -> Option<(u32, u32, Seq<(u32, u32, Seq<u8>, u32)>)>;

/// What the `image` crate's WebP decoder gives for `data`, as for GIF.
pub uninterp spec fn webp_decoded(data: Seq<u8>) -> Option<(u32, u32, Seq<(u32, u32, Seq<u8>, u32)>)>;

/// Trusted: opens `data` with `image::codecs::gif::GifDecoder::new`, reads
/// its `dimensions()`, and collects `into_frames()` with `collect_frames`;
/// each frame is taken as its RGBA buffer and the numerator of
/// `delay().numer_denom_ms()`. The contract claims only that the result is
/// a function of the bytes, named `gif_decoded`, and that a failure to open
/// or to decode any frame gives `None`.
#[verifier::external_body]
fn decode_gif(data: &[u8]) -> (r: Option<(u32, u32, Vec<DecodedFrame>)>)
    ensures
        match r {
            Some((w, h, v)) => gif_decoded(data@) == Some((w, h, v@.map_values(|f: DecodedFrame| f.parts()))),
            None => gif_decoded(data@) is None,
        },
{
    let decoder = image::codecs::gif::GifDecoder::new(std::io::Cursor::new(data)).ok()?;
    let (w, h) = image::ImageDecoder::dimensions(&decoder);
    let frames = image::AnimationDecoder::into_frames(decoder).collect_frames().ok()?;
    Some((w, h, frames.into_iter().map(|f| DecodedFrame {
        width: f.buffer().width(),
        height: f.buffer().height(),
        delay_ms: f.delay().numer_denom_ms().0,
        rgba: f.into_buffer().into_raw(),
    }).collect()))
}

/// Trusted: as `decode_gif`, with `image::codecs::webp::WebPDecoder::new`;
/// the result is named `webp_decoded`.
#[verifier::external_body]
fn decode_webp(data: &[u8]) -> (r: Option<(u32, u32, Vec<DecodedFrame>)>)
    ensures
        match r {
            Some((w, h, v)) => webp_decoded(data@) == Some((w, h, v@.map_values(|f: DecodedFrame| f.parts()))),
            None => webp_decoded(data@) is None,
        },
{
    let decoder = image::codecs::webp::WebPDecoder::new(std::io::Cursor::new(data)).ok()?;
    let (w, h) = image::ImageDecoder::dimensions(&decoder);
    let frames = image::AnimationDecoder::into_frames(decoder).collect_frames().ok()?;
    Some((w, h, frames.into_iter().map(|f| DecodedFrame {
        width: f.buffer().width(),
        height: f.buffer().height(),
        delay_ms: f.delay().numer_denom_ms().0,
        rgba: f.into_buffer().into_raw(),
    }).collect()))
}

/// The frame count and play time in milliseconds that `animation_info`
/// reads from `data`, or its error.
pub open spec fn animation_result(data: Seq<u8>) -> Result<(u32, int), &'static str> {
    if is_gif_header(data) {
        match spec_gif_info(data) {
            Ok((frames, cs)) => Ok((frames as u32, cs * 10)),
            Err(e) => Err(e),
        }
    } else if is_webp_header(data) {
        match spec_webp_info(data) {
            Ok((frames, ms)) => Ok((frames as u32, ms)),
            Err(e) => Err(e),
        }
    } else {
        Err("Unsupported image format")
    }
}

/// Whether `len` bytes hold a `w` by `h` RGBA image: the `image` crate
/// takes a raw buffer at least that long, the size fitting in memory.
pub open spec fn raw_fits(w: u32, h: u32, len: int) -> bool {
    4 * w * h <= usize::MAX && 4 * w * h <= len
}

/// The decoded image, its frames counted and timed from `data`.
pub open spec fn decoded_ok(
    r: Result<DecodedImage, &'static str>,
    data: Seq<u8>,
    decoded: Option<(u32, u32, Seq<(u32, u32, Seq<u8>, u32)>)>,
) -> bool {
    match decoded {
        None => r matches Err(m) && m == "Decode error",
        Some((w, h, fs)) => match animation_result(data) {
            Err(e) => r matches Err(m) && m == e,
            Ok((n, ms)) => r matches Ok(img) && img.width == w && img.height == h
                && img.frames@.map_values(|f: DecodedFrame| f.parts()) == fs && img.info.frames == n
                && img.info.duration == duration_from_millis(ms as u64),
        },
    }
}

/// A copy of the bytes of a slice.
fn slice_bytes(v: &[u8]) -> (r: Vec<u8>)
    ensures
        r@ == v@,
{
    let mut r: Vec<u8> = Vec::new();
    let mut i: usize = 0;
    while i < v.len()
        invariant
            0 <= i <= v@.len(),
            r@ == v@.take(i as int),
        decreases v@.len() - i,
    {
        r.push(v[i]);
        proof {
            assert(r@ =~= v@.take(i + 1));
        }
        i += 1;
    }
    proof {
        assert(v@.take(v@.len() as int) =~= v@);
    }
    r
}

/// Decodes the input image by its type: a GIF or a WebP by the `image`
/// crate's decoder, its frame count and play time read from the bytes;
/// anything else as one raw RGBA frame of `raw_size`, shown for a second
/// where a still image is driven by combinators and else for no time.
/// A decoder that fails gives "Decode error"; a raw buffer too short for
/// its size is refused.
pub fn get_frames(data: &[u8], image_type: &String, raw_size: Option<(u32, u32)>, static_combs: bool) -> (r:
    Result<DecodedImage, &'static str>)
    requires
        image_type@ == "gif"@ || image_type@ == "webp"@ || raw_size is Some,
    ensures
        image_type@ == "gif"@ ==> decoded_ok(r, data@, gif_decoded(data@)),
        image_type@ != "gif"@ && image_type@ == "webp"@ ==> decoded_ok(r, data@, webp_decoded(data@)),
        image_type@ != "gif"@ && image_type@ != "webp"@ ==> ({
            let (w, h) = raw_size.unwrap();
            if raw_fits(w, h, data@.len() as int) {
                &&& r matches Ok(img)
                &&& img.width == w && img.height == h
                &&& img.frames@.len() == 1
                &&& img.frames@[0].parts() == (w, h, data@, 0u32)
                &&& img.info.frames == 1
                &&& img.info.duration == duration_from_millis(if static_combs { 1000 } else { 0 })
            } else {
                r matches Err(m) && m == "buffer length must be width * height * 4"
            }
        }),
{
    let is_gif = same_text(image_type, "gif");
    let is_webp = same_text(image_type, "webp");
    if is_gif || is_webp {
        let decoded = if is_gif {
            decode_gif(data)
        } else {
            decode_webp(data)
        };
        match decoded {
            None => Err("Decode error"),
            Some((w, h, frames)) => match animation_info(data) {
                Err(e) => Err(e),
                Ok(info) => Ok(DecodedImage { width: w, height: h, frames, info }),
            },
        }
    } else {
        let (w, h) = match raw_size {
            Some(s) => s,
            None => (0, 0),
        };
        proof {
            assert(4 * (w as u128) * (h as u128) <= 4 * 0xffff_ffffu128 * 0xffff_ffffu128) by (nonlinear_arith);
        }
        let need: u128 = 4 * (w as u128) * (h as u128);
        if need > usize::MAX as u128 || need > data.len() as u128 {
            return Err("buffer length must be width * height * 4");
        }
        let frame = DecodedFrame { width: w, height: h, rgba: slice_bytes(data), delay_ms: 0 };
        let mut frames: Vec<DecodedFrame> = Vec::new();
        frames.push(frame);
        let duration = millis_to_duration(if static_combs {
            1000
        } else {
            0
        });
        Ok(DecodedImage { width: w, height: h, frames, info: AnimationInfo { frames: 1, duration } })
    }
}

} // verus!
