//! Encoding and decoding of MP4 (ISO base media file format) boxes.
mod basic_types;
pub mod aux;
pub mod c;
pub mod boxes;
mod boxes_fmp4;
mod boxes_moov_tree;
mod codec;
pub mod demux;
pub mod descriptors;
pub mod laws;
pub mod mux;
mod mux_fmp4;
mod mux_hybrid;

pub use basic_types::{
    BaseBox, BoxHeader, BoxSize, BoxType, Either, FixedPointNumber, FullBox, FullBoxFlags, FullBoxHeader,
    Mp4FileTime, NonZeroU32, SampleFlags, Utf8String,
};
pub use boxes::Mp4File;
pub use demux::TrackKind;
pub use descriptors::Uint;
pub use codec::{Decode, Encode, Error, ErrorKind, Result};
