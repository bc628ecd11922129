//! Decoding a GIF byte stream into the animation model.
//!
//! The bitstream work itself is done by the `image` crate; the library sees
//! its output only as plain framebuffer values, which the verified
//! normalizer then turns into an [`RgbaImageData`].

use vstd::prelude::*;

use crate::model::ChannelMode;
use crate::model::DecodeError;
use crate::model::RawFrame;
use crate::model::RawFrameModel;
use crate::model::RgbaImageData;
use crate::model::built_image;
use crate::model::dims_uniform;

verus! {

/// What the GIF decoder yields for a byte stream: the decoded frames as
/// plain values, or nothing when the stream is not a decodable animation.
/// The result is a function of the bytes alone.
pub uninterp spec fn gif_decode(bytes: Seq<u8>) -> Option<Seq<RawFrameModel>>;

/// Relies on image's `GifDecoder::new`, `AnimationDecoder::into_frames` and
/// `Frames::collect_frames` to decode a GIF byte stream into RGBA
/// framebuffers. Each decoded frame's buffer holds exactly width × height
/// four-channel pixels in row-major order (an `ImageBuffer` invariant), and
/// `Delay::numer_denom_ms` gives its delay as an exact rational in
/// milliseconds.
#[verifier::external_body]
fn decode_gif(bytes: &[u8]) -> (r: Result<Vec<RawFrame>, DecodeError>)
    ensures
        match r {
            Ok(fs) => gif_decode(bytes@) == Some(fs.deep_view()) && forall|i: int|
                0 <= i < fs@.len() ==> (#[trigger] fs@[i])@.wf(),
            Err(e) => gif_decode(bytes@) is None && e == DecodeError::Malformed,
        },
{
    let decoder = image::codecs::gif::GifDecoder::new(std::io::Cursor::new(bytes))
        .map_err(|_| DecodeError::Malformed)?;
    let frames = image::AnimationDecoder::into_frames(decoder)
        .collect_frames()
        .map_err(|_| DecodeError::Malformed)?;
    Ok(frames
        .iter()
        .map(|f| RawFrame {
            width: f.buffer().dimensions().0,
            height: f.buffer().dimensions().1,
            delay_ratio: f.delay().numer_denom_ms(),
            pixels: f.buffer().pixels().map(|p| (p.0[0], p.0[1], p.0[2], p.0[3])).collect(),
        })
        .collect())
}

impl RgbaImageData {
    /// Decodes a GIF byte stream and normalizes it under the given channel
    /// mode: exactly the decoder's frames, in order, with delays kept and
    /// pixels projected. A stream the decoder rejects (or one with more
    /// frames than the length field can count) is `Malformed`; a decodable
    /// stream fails only as the normalizer's contract says.
    pub fn new_from_bytes(bytes: &[u8], mode: ChannelMode) -> (r: Result<
        RgbaImageData,
        DecodeError,
    >)
        ensures
            match r {
                Ok(d) => {
                    &&& gif_decode(bytes@) matches Some(fs)
                    &&& 0 < fs.len() <= u32::MAX
                    &&& dims_uniform(fs)
                    &&& d@ == built_image(fs, mode)
                    &&& d@.wf()
                },
                Err(DecodeError::Malformed) => gif_decode(bytes@) is None || (gif_decode(bytes@)
                    matches Some(fs) && fs.len() > u32::MAX),
                Err(DecodeError::Empty) => gif_decode(bytes@) matches Some(fs) && fs.len() == 0,
                Err(DecodeError::InconsistentDimensions) => gif_decode(bytes@) matches Some(fs)
                    && 0 < fs.len() <= u32::MAX && !dims_uniform(fs),
            },
    {
        let raw = match decode_gif(bytes) {
            Ok(fs) => fs,
            Err(e) => {
                return Err(e);
            },
        };
        if raw.len() > u32::MAX as usize {
            return Err(DecodeError::Malformed);
        }
        Self::build(&raw, mode)
    }
}

} // verus!
