use lib::c::{CDemuxError, CRequiredInput, CSample, CTrackInfo, CTrackKind};
use lib::demux::{DemuxError, RequiredInput, Sample, TrackInfo};
use lib::{Error, ErrorKind, NonZeroU32, TrackKind};

#[test]
fn c_error_codes() {
    let e = DemuxError::DecodeError(Error::with_reason(ErrorKind::InvalidInput, "bad"));
    assert_eq!(CDemuxError::from_demux_error(&e), CDemuxError::DecodeError);
    assert_eq!(CDemuxError::DecodeError.code(), 1);
    assert_eq!(CDemuxError::SampleTableError.code(), 2);
    let r = DemuxError::InputRequired(RequiredInput { position: 8, size: None });
    assert_eq!(CDemuxError::from_demux_error(&r), CDemuxError::RequiredInput);
    assert_eq!(CDemuxError::RequiredInput.code(), 3);
}

#[test]
fn c_track_and_sample() {
    let track = TrackInfo {
        track_id: 2,
        kind: TrackKind::Audio,
        duration: 48_000,
        timescale: NonZeroU32::new(48_000).unwrap(),
    };
    let t = CTrackInfo::from_track_info(&track);
    assert_eq!((t.track_id, t.timescaled_duration, t.timescale), (2, 48_000, 48_000));
    assert_eq!(t.kind, CTrackKind::Audio);
    assert_eq!(t.kind.code(), 1);
    assert_eq!(CTrackKind::from_track_kind(&TrackKind::Video).code(), 0);

    let sample = Sample {
        track: &track,
        sample_entry: None,
        keyframe: true,
        timestamp: 960,
        duration: 960,
        data_offset: 1234,
        data_size: 77,
    };
    let s = CSample::from_sample(&sample);
    assert_eq!(s.track_id, 2);
    assert!(s.keyframe);
    assert_eq!((s.timescaled_timestamp, s.timescaled_duration), (960, 960));
    assert_eq!((s.data_offset, s.data_size), (1234, 77));
}

#[test]
fn c_required_input_size_zero_means_to_the_end() {
    let r = CRequiredInput::from_required_input(&RequiredInput { position: 40, size: None });
    assert_eq!((r.position, r.size), (40, 0));
    let r = CRequiredInput::from_required_input(&RequiredInput { position: 0, size: Some(32) });
    assert_eq!((r.position, r.size), (0, 32));
}
