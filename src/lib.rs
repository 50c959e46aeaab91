//! Replay of field-encoded video decoder output: decoding of planar
//! luma/chroma rasters, frame-mode classification, sequence metadata,
//! motion-adaptive field reconstruction and presentation timing.

pub mod ascii;
pub mod buffers;
pub mod display;
pub mod fields;
pub mod flag;
pub mod image;
pub mod metadata_parser;
pub mod pgm_parser;

pub use buffers::FrameSlots;
pub use display::{AppState, CycleOutcome, MpegFrame, PresentationScheduler};
pub use fields::{reconstruct, FieldPair, DEFAULT_THRESHOLD_PPM};
pub use flag::{Flag, FrameMode};
pub use image::{Rgb, RgbImage};
pub use metadata_parser::{meta_decode, mode_from_text, picture_by_id, MetaError, Picture};
pub use pgm_parser::{decode, DecodeError};
