//! Decodes an animated GIF into a structured in-memory model and emits that
//! model as a JSON document.
//!
//! The heart of the crate is the [`RgbaImageData`] aggregate: an immutable,
//! serializable description of an animation (global dimensions, per-frame
//! timing as an exact rational, per-pixel color samples in row-major order).
//! Construction from decoded framebuffers, projection of pixels to the chosen
//! channel arity, and the JSON encoding and decoding are all verified.

pub mod codec;
pub mod decode;
pub mod model;

pub use codec::FormatError;
pub use model::ChannelMode;
pub use model::DecodeError;
pub use model::DecodedFrame;
pub use model::FrameModel;
pub use model::ImageModel;
pub use model::RawFrame;
pub use model::RawFrameModel;
pub use model::RgbaImageData;
