//! Plain values of the demuxer for a C interface: errors as codes, track kinds, tracks,
//! samples and requests for input.
use crate::demux::{DemuxError, RequiredInput, Sample, TrackInfo, TrackKind};
use vstd::prelude::*;

verus! {

/// The kind of a demuxer error, for C.
#[derive(Debug, Clone, Copy, PartialEq, Eq, Structural)]
pub enum CDemuxError {
    /// A box could not be read.
    DecodeError,
    /// A sample table is inconsistent.
    SampleTableError,
    /// More bytes of the file are needed.
    RequiredInput,
}

impl CDemuxError {
    /// The kind of a demuxer error.
    pub fn from_demux_error(error: &DemuxError) -> (r: Self)
        ensures
            r == match *error {
                DemuxError::DecodeError(_) => CDemuxError::DecodeError,
                DemuxError::SampleTableError(_) => CDemuxError::SampleTableError,
                DemuxError::InputRequired(_) => CDemuxError::RequiredInput,
            },
    {
        match error {
            DemuxError::DecodeError(_) => CDemuxError::DecodeError,
            DemuxError::SampleTableError(_) => CDemuxError::SampleTableError,
            DemuxError::InputRequired(_) => CDemuxError::RequiredInput,
        }
    }

    /// The number of the kind in the C interface: 1, 2 or 3.
    pub fn code(self) -> (r: i32)
        ensures
            r == match self {
                CDemuxError::DecodeError => 1i32,
                CDemuxError::SampleTableError => 2i32,
                CDemuxError::RequiredInput => 3i32,
            },
    {
        match self {
            CDemuxError::DecodeError => 1,
            CDemuxError::SampleTableError => 2,
            CDemuxError::RequiredInput => 3,
        }
    }
}

/// The kind of a track, for C: video is 0, audio is 1.
#[derive(Debug, Clone, Copy, PartialEq, Eq, Structural)]
pub enum CTrackKind {
    /// A video track.
    Video,
    /// An audio track.
    Audio,
}

impl CTrackKind {
    /// The kind of a track.
    pub fn from_track_kind(kind: &TrackKind) -> (r: Self)
        ensures
            r == match *kind {
                TrackKind::Video => CTrackKind::Video,
                TrackKind::Audio => CTrackKind::Audio,
            },
    {
        match kind {
            TrackKind::Video => CTrackKind::Video,
            TrackKind::Audio => CTrackKind::Audio,
        }
    }

    /// The number of the kind in the C interface.
    pub fn code(self) -> (r: i32)
        ensures
            r == match self {
                CTrackKind::Video => 0i32,
                CTrackKind::Audio => 1i32,
            },
    {
        match self {
            CTrackKind::Video => 0,
            CTrackKind::Audio => 1,
        }
    }
}

/// A track, for C.
#[derive(Debug, Clone, Copy)]
pub struct CTrackInfo {
    /// The identifier of the track.
    pub track_id: u32,
    /// The kind of the track.
    pub kind: CTrackKind,
    /// The duration of the track, in units of its timescale.
    pub timescaled_duration: u64,
    /// The number of units of the track's time per second.
    pub timescale: u32,
}

impl CTrackInfo {
    /// The track as plain values.
    pub fn from_track_info(info: &TrackInfo) -> (r: Self)
        ensures
            r.track_id == info.track_id,
            r.kind == CTrackKind::from_track_kind_spec(info.kind),
            r.timescaled_duration == info.duration,
            r.timescale == info.timescale.spec_get(),
    {
        Self {
            track_id: info.track_id,
            kind: CTrackKind::from_track_kind(&info.kind),
            timescaled_duration: info.duration,
            timescale: info.timescale.get(),
        }
    }
}

impl CTrackKind {
    /// The C kind of a track kind.
    pub open spec fn from_track_kind_spec(kind: TrackKind) -> Self {
        match kind {
            TrackKind::Video => CTrackKind::Video,
            TrackKind::Audio => CTrackKind::Audio,
        }
    }
}

/// A sample, for C.
#[derive(Debug, Clone, Copy)]
pub struct CSample {
    /// The identifier of the sample's track.
    pub track_id: u32,
    /// Whether the sample is a key frame.
    pub keyframe: bool,
    /// The time of the sample, in units of its track's timescale.
    pub timescaled_timestamp: u64,
    /// The duration of the sample, in units of its track's timescale.
    pub timescaled_duration: u32,
    /// Where the data of the sample starts in the file.
    pub data_offset: u64,
    /// The size of the data of the sample in bytes.
    pub data_size: usize,
}

impl CSample {
    /// The sample as plain values.
    pub fn from_sample(sample: &Sample) -> (r: Self)
        ensures
            r.track_id == sample.track.track_id,
            r.keyframe == sample.keyframe,
            r.timescaled_timestamp == sample.timestamp,
            r.timescaled_duration == sample.duration,
            r.data_offset == sample.data_offset,
            r.data_size == sample.data_size,
    {
        Self {
            track_id: sample.track.track_id,
            keyframe: sample.keyframe,
            timescaled_timestamp: sample.timestamp,
            timescaled_duration: sample.duration,
            data_offset: sample.data_offset,
            data_size: sample.data_size,
        }
    }
}

/// A request for input, for C: `size` 0 stands for all bytes up to the end of the file.
#[derive(Debug, Clone, Copy)]
pub struct CRequiredInput {
    /// Where the bytes start in the file.
    pub position: u64,
    /// How many bytes are needed, 0 for all up to the end of the file.
    pub size: usize,
}

impl CRequiredInput {
    /// The request as plain values.
    pub fn from_required_input(required: &RequiredInput) -> (r: Self)
        ensures
            r.position == required.position,
            r.size == match required.size {
                Some(n) => n,
                None => 0,
            },
    {
        Self {
            position: required.position,
            size: match required.size {
                Some(n) => n,
                None => 0,
            },
        }
    }
}

} // verus!
