//! GIF decoding into video frames, frame timing (per-frame delays from a
//! decoder's ratio), and the frame rate estimated from the delays.
use vstd::prelude::*;
use crate::detect::VideoFrame;
use crate::decompile::DecompileError;

verus! {

// --------------------------------------------------------------------
// GIF decoding
// --------------------------------------------------------------------

/// A decoded frame: width, height, RGBA bytes, and the delay as a ratio
/// `numerator / denominator` of milliseconds.
pub type DecodedFrame = (u32, u32, Vec<u8>, u32, u32);

pub open spec fn decoded_view(v: Seq<DecodedFrame>) -> Seq<(u32, u32, Seq<u8>, u32, u32)> {
    v.map_values(|f: DecodedFrame| (f.0, f.1, f.2@, f.3, f.4))
}

/// The frames that the `image` crate's GIF decoder makes of `bytes`, or
/// `None` where it refuses them.
pub uninterp spec fn gif_frames(bytes: Seq<u8>) -> Option<Seq<(u32, u32, Seq<u8>, u32, u32)>>;

/// Decodes every frame of a GIF held in memory with
/// `image::codecs::gif::GifDecoder` (`AnimationDecoder::into_frames`, then
/// `Frames::collect_frames`): per frame the width and height of its RGBA
/// buffer, the buffer, and `Delay::numer_denom_ms`. The contract claims
/// only that the outcome is a function of the bytes, named
/// [`gif_frames`]; the error text is the decoder's and is not stated.
#[verifier::external_body]
fn decode_gif(bytes: &[u8]) -> (r: Result<Vec<DecodedFrame>, String>)
    ensures
        r is Ok <==> gif_frames(bytes@) is Some,
        r matches Ok(v) ==> gif_frames(bytes@) == Some(decoded_view(v@)),
{
    let decoder = image::codecs::gif::GifDecoder::new(std::io::Cursor::new(bytes)).map_err(|e| e.to_string())?;
    let frames = image::AnimationDecoder::into_frames(decoder).collect_frames().map_err(|e| e.to_string())?;
    Ok(frames.into_iter().map(|f| {
        let (numer, denom) = f.delay().numer_denom_ms();
        let img = f.into_buffer();
        (img.width(), img.height(), img.into_raw(), numer, denom)
    }).collect())
}

/// The video frame of a decoded frame: its size and bytes, and its delay
/// by [`delay_of`].
pub open spec fn frame_of_decoded(f: VideoFrame, d: (u32, u32, Seq<u8>, u32, u32)) -> bool {
    &&& f.width == d.0
    &&& f.height == d.1
    &&& f.pixels@ == d.2
    &&& f.delay_ms == delay_of(d.3, d.4)
}

pub open spec fn frames_of_decoded(v: Seq<VideoFrame>, d: Seq<(u32, u32, Seq<u8>, u32, u32)>) -> bool {
    &&& v.len() == d.len()
    &&& forall|i: int| 0 <= i < v.len() ==> frame_of_decoded(#[trigger] v[i], d[i])
}

/// Turns decoded frames into video frames; see [`frame_of_decoded`].
pub fn video_frames(decoded: Vec<DecodedFrame>) -> (v: Vec<VideoFrame>)
    ensures
        frames_of_decoded(v@, decoded_view(decoded@)),
{
    let ghost all = decoded_view(decoded@);
    let ghost n = decoded@.len();
    let mut rest = decoded;
    let mut v: Vec<VideoFrame> = Vec::new();
    while rest.len() > 0
        invariant
            n == all.len(),
            v@.len() + rest@.len() == n,
            decoded_view(rest@) == all.subrange(v@.len() as int, n as int),
            forall|i: int| 0 <= i < v@.len() ==> frame_of_decoded(#[trigger] v@[i], all[i]),
        decreases rest@.len(),
    {
        let ghost k = v@.len();
        let ghost before = rest@;
        let (w, h, pixels, numer, denom) = rest.remove(0);
        proof {
            assert(decoded_view(before)[0] == all[k as int]);
            assert(decoded_view(rest@) =~= decoded_view(before).subrange(1, before.len() as int));
        }
        let delay_ms = frame_delay_ms(numer, denom);
        v.push(VideoFrame { width: w, height: h, pixels, delay_ms });
    }
    v
}

/// Decodes every frame of a GIF: an error where the decoder refuses the
/// bytes, else the video frames of the decoded frames.
pub fn load_gif(bytes: &[u8]) -> (r: Result<Vec<VideoFrame>, DecompileError>)
    ensures
        gif_frames(bytes@) is None <==> r is Err,
        r is Err ==> r matches Err(DecompileError::Image(_)),
        r matches Ok(v) ==> frames_of_decoded(v@, gif_frames(bytes@)->Some_0),
{
    match decode_gif(bytes) {
        Ok(decoded) => Ok(video_frames(decoded)),
        Err(e) => Err(DecompileError::Image(e)),
    }
}

/// Delay used when a frame's delay ratio has a zero denominator.
pub const FALLBACK_DELAY_MS: u32 = 33;

/// Frame rate reported for an empty video.
pub const DEFAULT_FPS: u32 = 30;

pub const MIN_FPS: u32 = 1;

pub const MAX_FPS: u32 = 240;

/// A frame delay of `numer / denom` milliseconds, rounded down and at
/// least 1; [`FALLBACK_DELAY_MS`] when `denom` is zero.
pub open spec fn delay_of(numer: u32, denom: u32) -> u32 {
    if denom == 0 {
        FALLBACK_DELAY_MS
    } else if numer / denom >= 1 {
        numer / denom
    } else {
        1
    }
}

/// See [`delay_of`].
pub fn frame_delay_ms(numer: u32, denom: u32) -> (d: u32)
    ensures
        d == delay_of(numer, denom),
{
    if denom == 0 {
        FALLBACK_DELAY_MS
    } else {
        let q = numer / denom;
        if q >= 1 {
            q
        } else {
            1
        }
    }
}

/// Sum of the delays of the first `k` frames.
pub open spec fn delay_sum(frames: Seq<VideoFrame>, k: int) -> int
    decreases k,
{
    if k <= 0 {
        0
    } else {
        delay_sum(frames, k - 1) + frames[k - 1].delay_ms
    }
}

/// The frame rate of a video: `1000 / avg` rounded to the nearest integer
/// (halves up), where `avg` is the mean delay rounded down and at least 1,
/// clamped to `1 ..= 240`; 30 for no frames.
pub open spec fn fps_of(frames: Seq<VideoFrame>) -> u32 {
    if frames.len() == 0 {
        DEFAULT_FPS
    } else {
        let avg0 = delay_sum(frames, frames.len() as int) / (frames.len() as int);
        let avg = if avg0 >= 1 { avg0 } else { 1 };
        let fps = (2000 + avg) / (2 * avg);
        if fps < MIN_FPS {
            MIN_FPS
        } else if fps > MAX_FPS {
            MAX_FPS
        } else {
            fps as u32
        }
    }
}

proof fn lemma_delay_sum_bound(frames: Seq<VideoFrame>, k: int)
    requires
        0 <= k <= frames.len(),
    ensures
        0 <= delay_sum(frames, k) <= k * (u32::MAX as int),
    decreases k,
{
    if k > 0 {
        lemma_delay_sum_bound(frames, k - 1);
    }
}

/// Estimates the frame rate from the mean delay between frames.
pub fn estimate_fps(frames: &[VideoFrame]) -> (fps: u32)
    ensures
        fps == fps_of(frames@),
{
    if frames.len() == 0 {
        return DEFAULT_FPS;
    }
    let mut total: u128 = 0;
    let mut i: usize = 0;
    while i < frames.len()
        invariant
            0 <= i <= frames@.len(),
            total == delay_sum(frames@, i as int),
        decreases frames@.len() - i,
    {
        proof {
            lemma_delay_sum_bound(frames@, i as int);
            assert(i * (u32::MAX as int) <= 0x1_0000_0000_0000_0000_0000_0000) by (nonlinear_arith)
                requires
                    i <= usize::MAX,
            ;
        }
        total = total + frames[i].delay_ms as u128;
        i = i + 1;
    }
    let len = frames.len() as u128;
    let avg0: u128 = total / len;
    proof {
        lemma_delay_sum_bound(frames@, frames@.len() as int);
        assert(total <= len * (u32::MAX as int));
        vstd::arithmetic::div_mod::lemma_div_is_ordered(
            total as int,
            len * (u32::MAX as int),
            len as int,
        );
        vstd::arithmetic::div_mod::lemma_div_multiples_vanish(u32::MAX as int, len as int);
        assert(avg0 <= u32::MAX);
    }
    let avg: u128 = if avg0 >= 1 { avg0 } else { 1 };
    let fps: u128 = (2000 + avg) / (2 * avg);
    if fps < MIN_FPS as u128 {
        MIN_FPS
    } else if fps > MAX_FPS as u128 {
        MAX_FPS
    } else {
        fps as u32
    }
}

} // verus!
