//! The in-memory animation model: global dimensions, per-frame timing as an
//! exact rational, and per-pixel color samples, together with the normalizing
//! builder that turns decoder-provided framebuffers into that model.

use vstd::prelude::*;

verus! {

/// Whether pixel samples keep the alpha channel (four channels) or drop it
/// (three channels).
#[derive(Clone, Copy, Debug, PartialEq, Eq, Structural)]
pub enum ChannelMode {
    Rgb,
    Rgba,
}

/// The number of 8-bit channels a sample carries under the given mode.
pub open spec fn channel_count(mode: ChannelMode) -> nat {
    match mode {
        ChannelMode::Rgb => 3,
        ChannelMode::Rgba => 4,
    }
}

/// Why a decoded animation was rejected.
#[derive(Clone, Copy, Debug, PartialEq, Eq, Structural)]
pub enum DecodeError {
    /// The byte stream was not a decodable animation, or was too large to model.
    Malformed,
    /// The animation holds no frames at all.
    Empty,
    /// Two frames report different dimensions.
    InconsistentDimensions,
}

/// One framebuffer as the decoder hands it over: its own dimensions, its
/// display delay as an exact rational in milliseconds, and its pixels as
/// four-channel samples in row-major order.
#[derive(Debug, PartialEq)]
pub struct RawFrame {
    pub width: u32,
    pub height: u32,
    pub delay_ratio: (u32, u32),
    pub pixels: Vec<(u8, u8, u8, u8)>,
}

/// The mathematical view of a [`RawFrame`].
#[verifier::ext_equal]
pub ghost struct RawFrameModel {
    pub width: u32,
    pub height: u32,
    pub delay_ratio: (u32, u32),
    pub pixels: Seq<(u8, u8, u8, u8)>,
}

impl RawFrameModel {
    /// The pixel buffer covers the frame exactly: one sample per pixel.
    pub open spec fn wf(self) -> bool {
        self.pixels.len() == self.width * self.height
    }
}

impl View for RawFrame {
    type V = RawFrameModel;

    open spec fn view(&self) -> RawFrameModel {
        RawFrameModel {
            width: self.width,
            height: self.height,
            delay_ratio: self.delay_ratio,
            pixels: self.pixels@,
        }
    }
}

impl DeepView for RawFrame {
    type V = RawFrameModel;

    open spec fn deep_view(&self) -> RawFrameModel {
        self.view()
    }
}

/// The mathematical view of a [`DecodedFrame`].
#[verifier::ext_equal]
pub ghost struct FrameModel {
    pub delay_ratio: (u32, u32),
    pub pixels: Seq<Seq<u8>>,
}

/// One normalized animation frame: its display delay as an exact rational in
/// milliseconds, and its samples projected to the aggregate's channel arity,
/// in row-major order.
#[derive(Debug, PartialEq)]
pub struct DecodedFrame {
    delay_ratio: (u32, u32),
    pixels: Vec<Vec<u8>>,
}

impl View for DecodedFrame {
    type V = FrameModel;

    closed spec fn view(&self) -> FrameModel {
        FrameModel { delay_ratio: self.delay_ratio, pixels: self.pixels.deep_view() }
    }
}

impl DeepView for DecodedFrame {
    type V = FrameModel;

    open spec fn deep_view(&self) -> FrameModel {
        self.view()
    }
}

impl DecodedFrame {
    pub fn new(delay_ratio: (u32, u32), pixels: Vec<Vec<u8>>) -> (r: Self)
        ensures
            r@ == (FrameModel { delay_ratio, pixels: pixels.deep_view() }),
    {
        Self { delay_ratio, pixels }
    }

    /// This frame's delay ratio.
    pub fn delay(&self) -> (r: (u32, u32))
        ensures
            r == self@.delay_ratio,
    {
        self.delay_ratio
    }

    /// This frame's samples.
    pub fn samples(&self) -> (r: &Vec<Vec<u8>>)
        ensures
            r.deep_view() == self@.pixels,
    {
        &self.pixels
    }
}

/// The mathematical view of an [`RgbaImageData`].
#[verifier::ext_equal]
pub ghost struct ImageModel {
    pub dimensions: (u32, u32),
    pub length: u32,
    pub frames: Seq<FrameModel>,
    pub mode: ChannelMode,
}

impl ImageModel {
    /// Structural validity of a fully built model: the recorded length mirrors
    /// the frame sequence, the sequence is non-empty, every frame covers the
    /// shared dimensions exactly, and every sample has the mode's arity.
    pub open spec fn wf(self) -> bool {
        &&& self.length == self.frames.len()
        &&& self.frames.len() > 0
        &&& forall|i: int|
            0 <= i < self.frames.len() ==> #[trigger] self.frames[i].pixels.len()
                == self.dimensions.0 * self.dimensions.1
        &&& forall|i: int, j: int|
            0 <= i < self.frames.len() && 0 <= j < self.frames[i].pixels.len()
                ==> (#[trigger] self.frames[i].pixels[j]).len() == channel_count(self.mode)
    }
}

/// How one four-channel source pixel is projected under a channel mode:
/// `Rgb` drops the alpha channel and keeps red, green and blue unchanged;
/// `Rgba` keeps all four channels exactly.
pub open spec fn project_sample(mode: ChannelMode, p: (u8, u8, u8, u8)) -> Seq<u8> {
    match mode {
        ChannelMode::Rgb => seq![p.0, p.1, p.2],
        ChannelMode::Rgba => seq![p.0, p.1, p.2, p.3],
    }
}

/// The frame that building produces from one raw frame: the delay kept
/// exactly, every pixel projected in order.
pub open spec fn built_frame(mode: ChannelMode, rf: RawFrameModel) -> FrameModel {
    FrameModel {
        delay_ratio: rf.delay_ratio,
        pixels: rf.pixels.map(|i: int, p: (u8, u8, u8, u8)| project_sample(mode, p)),
    }
}

/// Whether every raw frame reports the same dimensions as the first.
pub open spec fn dims_uniform(frames: Seq<RawFrameModel>) -> bool {
    forall|i: int|
        0 <= i < frames.len() ==> (#[trigger] frames[i]).width == frames[0].width
            && frames[i].height == frames[0].height
}

/// The model that building a non-empty, dimension-uniform raw sequence yields.
pub open spec fn built_image(frames: Seq<RawFrameModel>, mode: ChannelMode) -> ImageModel {
    ImageModel {
        dimensions: (frames[0].width, frames[0].height),
        length: frames.len() as u32,
        frames: frames.map(|i: int, rf: RawFrameModel| built_frame(mode, rf)),
        mode,
    }
}

/// The normalized animation aggregate: constant dimensions, an explicit frame
/// count kept for serialization stability, and the frames in playback order.
#[derive(Debug, PartialEq)]
pub struct RgbaImageData {
    dimensions: (u32, u32),
    length: u32,
    frames: Vec<DecodedFrame>,
    mode: ChannelMode,
}

impl View for RgbaImageData {
    type V = ImageModel;

    closed spec fn view(&self) -> ImageModel {
        ImageModel {
            dimensions: self.dimensions,
            length: self.length,
            frames: self.frames.deep_view(),
            mode: self.mode,
        }
    }
}

impl RgbaImageData {
    /// An empty builder state: the recorded length and dimensions, no frames
    /// appended yet.
    pub fn new(length: usize, dimensions: (u32, u32), mode: ChannelMode) -> (r: Self)
        requires
            length <= u32::MAX,
        ensures
            r@ == (ImageModel {
                dimensions,
                length: length as u32,
                frames: Seq::<FrameModel>::empty(),
                mode,
            }),
    {
        let r = Self { dimensions, length: length as u32, frames: Vec::new(), mode };
        proof {
            assert(r@ =~= ImageModel {
                dimensions,
                length: length as u32,
                frames: Seq::<FrameModel>::empty(),
                mode,
            });
        }
        r
    }

    /// The internal builder append step: the next frame in playback order.
    pub fn add(&mut self, next_frame: DecodedFrame)
        ensures
            final(self)@ == (ImageModel {
                frames: old(self)@.frames.push(next_frame@),
                ..old(self)@
            }),
    {
        self.frames.push(next_frame);
        proof {
            assert(self@ =~= ImageModel { frames: old(self)@.frames.push(next_frame@), ..old(self)@ });
        }
    }

    /// Normalizes a decoded animation into the canonical model.
    ///
    /// Dimensions are read from the first frame; every later frame must report
    /// the same, else the build fails with `InconsistentDimensions`. An empty
    /// sequence fails with `Empty`. On success every pixel of every frame is
    /// projected to the mode's arity, in order, and each delay is kept exactly.
    pub fn build(raw: &Vec<RawFrame>, mode: ChannelMode) -> (r: Result<RgbaImageData, DecodeError>)
        requires
            raw@.len() <= u32::MAX,
            forall|i: int| 0 <= i < raw@.len() ==> (#[trigger] raw@[i])@.wf(),
        ensures
            match r {
                Ok(d) => {
                    &&& raw@.len() > 0
                    &&& dims_uniform(raw.deep_view())
                    &&& d@ == built_image(raw.deep_view(), mode)
                    &&& d@.wf()
                },
                Err(DecodeError::Empty) => raw@.len() == 0,
                Err(DecodeError::InconsistentDimensions) => raw@.len() > 0 && !dims_uniform(
                    raw.deep_view(),
                ),
                Err(DecodeError::Malformed) => false,
            },
    {
        if raw.len() == 0 {
            return Err(DecodeError::Empty);
        }
        let width = raw[0].width;
        let height = raw[0].height;
        let mut out = Self::new(raw.len(), (width, height), mode);
        let ghost rawv: Seq<RawFrameModel> = raw.deep_view();
        let mut k: usize = 0;
        while k < raw.len()
            invariant
                0 < raw@.len() <= u32::MAX,
                forall|i: int| 0 <= i < raw@.len() ==> (#[trigger] raw@[i])@.wf(),
                rawv == raw.deep_view(),
                rawv.len() == raw@.len(),
                forall|i: int| 0 <= i < rawv.len() ==> #[trigger] rawv[i] == raw@[i]@,
                0 <= k <= raw@.len(),
                width == rawv[0].width,
                height == rawv[0].height,
                forall|i: int|
                    0 <= i < k ==> (#[trigger] rawv[i]).width == width && rawv[i].height == height,
                out@.dimensions == (width, height),
                out@.length == raw@.len() as u32,
                out@.mode == mode,
                out@.frames == rawv.take(k as int).map(
                    |i: int, rf: RawFrameModel| built_frame(mode, rf),
                ),
            decreases raw@.len() - k,
        {
            let rf = &raw[k];
            if rf.width != width || rf.height != height {
                proof {
                    assert(rawv[k as int] == raw@[k as int]@);
                    assert(!dims_uniform(rawv));
                }
                return Err(DecodeError::InconsistentDimensions);
            }
            let projected = project_pixels(&rf.pixels, mode);
            let df = DecodedFrame::new(rf.delay_ratio, projected);
            proof {
                assert(df@ =~= built_frame(mode, rawv[k as int]));
            }
            out.add(df);
            k = k + 1;
            proof {
                assert(rawv.take(k as int) =~= rawv.take(k as int - 1).push(rawv[k as int - 1]));
                assert(out@.frames =~= rawv.take(k as int).map(
                    |i: int, rf2: RawFrameModel| built_frame(mode, rf2),
                ));
            }
        }
        proof {
            assert(rawv.take(k as int) =~= rawv);
            assert(out@ =~= built_image(rawv, mode));
            assert forall|i: int| 0 <= i < out@.frames.len() implies #[trigger] out@.frames[i]
                .pixels.len() == out@.dimensions.0 * out@.dimensions.1 by {
                assert(rawv[i].wf());
            }
            assert forall|i: int, j: int|
                0 <= i < out@.frames.len() && 0 <= j < out@.frames[i].pixels.len() implies (
            #[trigger] out@.frames[i].pixels[j]).len() == channel_count(mode) by {
                assert(out@.frames[i].pixels[j] == project_sample(mode, rawv[i].pixels[j]));
            }
            assert(out@.wf());
        }
        Ok(out)
    }

    /// The samples of one frame, or `None` when the index is out of range.
    pub fn get_frame_vec_ref(&self, frame: usize) -> (r: Option<&Vec<Vec<u8>>>)
        ensures
            match r {
                Some(p) => frame < self@.frames.len() && p.deep_view()
                    == self@.frames[frame as int].pixels,
                None => frame >= self@.frames.len(),
            },
    {
        match self.frames.get(frame) {
            Some(f) => Some(&f.pixels),
            None => None,
        }
    }

    /// The delay ratio of one frame, or `None` when the index is out of range.
    pub fn get_frame_delay(&self, frame: usize) -> (r: Option<(u32, u32)>)
        ensures
            match r {
                Some(d) => frame < self@.frames.len() && d == self@.frames[frame as int]
                    .delay_ratio,
                None => frame >= self@.frames.len(),
            },
    {
        match self.frames.get(frame) {
            Some(f) => Some(f.delay_ratio),
            None => None,
        }
    }

    /// The global dimensions, shared by every frame.
    pub fn get_dimensions(&self) -> (r: (u32, u32))
        ensures
            r == self@.dimensions,
    {
        self.dimensions
    }

    /// The recorded frame count.
    pub fn get_length(&self) -> (r: u32)
        ensures
            r == self@.length,
    {
        self.length
    }

    /// The configured channel mode.
    pub fn get_mode(&self) -> (r: ChannelMode)
        ensures
            r == self@.mode,
    {
        self.mode
    }

    /// Puts a fully decoded set of parts back together as one aggregate.
    pub(crate) fn assemble(
        dimensions: (u32, u32),
        length: u32,
        frames: Vec<DecodedFrame>,
        mode: ChannelMode,
    ) -> (r: Self)
        ensures
            r@ == (ImageModel { dimensions, length, frames: frames.deep_view(), mode }),
    {
        let r = Self { dimensions, length, frames, mode };
        proof {
            assert(r@ =~= ImageModel { dimensions, length, frames: r.frames.deep_view(), mode });
        }
        r
    }

    /// The frames in playback order.
    pub fn frames(&self) -> (r: &Vec<DecodedFrame>)
        ensures
            r.deep_view() == self@.frames,
    {
        &self.frames
    }
}

/// Projects every source pixel of one frame to the mode's arity, in order.
fn project_pixels(pixels: &Vec<(u8, u8, u8, u8)>, mode: ChannelMode) -> (r: Vec<Vec<u8>>)
    ensures
        r.deep_view() == pixels@.map(|i: int, p: (u8, u8, u8, u8)| project_sample(mode, p)),
{
    let mut out: Vec<Vec<u8>> = Vec::new();
    let mut k: usize = 0;
    while k < pixels.len()
        invariant
            0 <= k <= pixels@.len(),
            out.deep_view() == pixels@.take(k as int).map(
                |i: int, p: (u8, u8, u8, u8)| project_sample(mode, p),
            ),
        decreases pixels@.len() - k,
    {
        let p = pixels[k];
        let mut sample: Vec<u8> = Vec::new();
        sample.push(p.0);
        sample.push(p.1);
        sample.push(p.2);
        match mode {
            ChannelMode::Rgb => {},
            ChannelMode::Rgba => {
                sample.push(p.3);
            },
        }
        proof {
            assert(sample@ =~= project_sample(mode, pixels@[k as int]));
            assert(sample.deep_view() =~= sample@);
        }
        let ghost prev = out.deep_view();
        let ghost sa = sample@;
        out.push(sample);
        k = k + 1;
        proof {
            assert(out.deep_view() =~= prev.push(sa));
            assert(pixels@.take(k as int) =~= pixels@.take(k as int - 1).push(
                pixels@[k as int - 1],
            ));
            assert(pixels@.take(k as int).map(|i: int, p: (u8, u8, u8, u8)| project_sample(mode, p))
                =~= pixels@.take(k as int - 1).map(
                |i: int, p: (u8, u8, u8, u8)| project_sample(mode, p),
            ).push(project_sample(mode, pixels@[k as int - 1])));
        }
    }
    proof {
        assert(pixels@.take(k as int) =~= pixels@);
        assert(out.deep_view() =~= pixels@.map(
            |i: int, p: (u8, u8, u8, u8)| project_sample(mode, p),
        ));
    }
    out
}

/// Every well-formed model records exactly as many frames as it holds, and
/// every frame holds one sample per pixel of the shared dimensions.
pub proof fn lemma_frame_count_matches(m: ImageModel)
    requires
        m.wf(),
    ensures
        m.frames.len() == m.length,
        forall|i: int|
            0 <= i < m.frames.len() ==> #[trigger] m.frames[i].pixels.len() == m.dimensions.0
                * m.dimensions.1,
{
}

/// Any two frames of one well-formed model answer to the same dimensions:
/// their sample counts agree.
pub proof fn lemma_uniform_dimensions(m: ImageModel, i: int, j: int)
    requires
        m.wf(),
        0 <= i < m.frames.len(),
        0 <= j < m.frames.len(),
    ensures
        m.frames[i].pixels.len() == m.frames[j].pixels.len(),
{
}

/// Alpha-discard projection keeps red, green and blue unchanged and drops
/// nothing else: the sample is exactly the first three channels.
pub proof fn lemma_alpha_discard(p: (u8, u8, u8, u8))
    ensures
        project_sample(ChannelMode::Rgb, p) == seq![p.0, p.1, p.2],
{
}

/// Alpha-preserve projection is the identity on all four channels.
pub proof fn lemma_alpha_preserve(p: (u8, u8, u8, u8))
    ensures
        project_sample(ChannelMode::Rgba, p) == seq![p.0, p.1, p.2, p.3],
{
}

} // verus!
